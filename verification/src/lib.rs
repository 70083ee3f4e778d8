//! Total playback duration of a tree of video files.
//!
//! The library holds the decision logic of a concurrent
//! traverse-probe-aggregate pipeline: classifying directory entries,
//! planning one task per recognized entry, parsing the probing tool's
//! output into microseconds, collecting exactly one result per task,
//! summing the results independently of arrival order, bounding the
//! number of probes in flight, and rendering the total as hours,
//! minutes and seconds. The surrounding process work (listing
//! directories, spawning threads, running the probing tool) lives
//! outside the library and hands plain values in and out.

pub mod entry;
pub mod fanin;
pub mod limiter;
pub mod order;
pub mod parse;
pub mod probe;
pub mod report;
