//! Media-layer errors.

use vstd::prelude::*;

use crate::text;

verus! {

/// Errors from probing, decoding, acquiring or talking to the worker.
#[derive(Debug)]
pub enum MediaError {
    /// The media library returned an error.
    Libav(String),
    /// The file has no stream of the requested kind.
    NoStream(String, String),
    /// Filesystem or pipe error.
    Io(String),
    /// Message framing or serialisation error.
    Protocol(String),
    /// The worker exited or crashed.
    WorkerExited(String),
    /// The worker reported an error.
    Worker(String),
    /// No message from the worker within the configured idle timeout, in seconds.
    Timeout(u64),
    /// The request was cancelled by the caller.
    Cancelled,
    /// Invalid caller argument.
    Invalid(String),
    /// Source could not be acquired.
    Acquire(String),
}

impl MediaError {
    /// The text of the message.
    pub open spec fn spec_message(self) -> Seq<char> {
        match self {
            MediaError::Libav(m) => "libav: "@ + m@,
            MediaError::NoStream(kind, path) => "no "@ + kind@ + " stream in "@ + path@,
            MediaError::Io(m) => "io: "@ + m@,
            MediaError::Protocol(m) => "protocol: "@ + m@,
            MediaError::WorkerExited(m) => "worker exited unexpectedly: "@ + m@,
            MediaError::Worker(m) => "worker: "@ + m@,
            MediaError::Timeout(s) => "worker idle for more than "@ + text::decimal(s as nat)
                + " s"@,
            MediaError::Cancelled => "cancelled"@,
            MediaError::Invalid(m) => "invalid argument: "@ + m@,
            MediaError::Acquire(m) => "acquire: "@ + m@,
        }
    }

    /// The message shown to users.
    pub fn message(&self) -> (s: String)
        ensures
            s@ == self.spec_message(),
    {
        match self {
            MediaError::Libav(m) => prefixed("libav: ", m),
            MediaError::NoStream(kind, path) => {
                let mut s = prefixed("no ", kind);
                s.append(" stream in ");
                s.append(path.as_str());
                s
            },
            MediaError::Io(m) => prefixed("io: ", m),
            MediaError::Protocol(m) => prefixed("protocol: ", m),
            MediaError::WorkerExited(m) => prefixed("worker exited unexpectedly: ", m),
            MediaError::Worker(m) => prefixed("worker: ", m),
            MediaError::Timeout(secs) => {
                let mut s = "worker idle for more than ".to_owned();
                let d = text::decimal_string(*secs);
                s.append(d.as_str());
                s.append(" s");
                s
            },
            MediaError::Cancelled => "cancelled".to_owned(),
            MediaError::Invalid(m) => prefixed("invalid argument: ", m),
            MediaError::Acquire(m) => prefixed("acquire: ", m),
        }
    }

    /// A problem with a sidecar file.
    pub fn sidecar(msg: String) -> (e: MediaError)
        ensures
            e == MediaError::Acquire(msg),
    {
        MediaError::Acquire(msg)
    }
}

fn prefixed(prefix: &str, m: &String) -> (s: String)
    ensures
        s@ == prefix@ + m@,
{
    let mut s = prefix.to_owned();
    s.append(m.as_str());
    s
}

} // verus!
