use vstd::prelude::*;
use vstd::string::StringExecFns;
use crate::text::decimal_string;

verus! {

/// Errors of the store as a whole.
#[derive(Debug, Clone, PartialEq, Eq)]
pub enum Error {
    /// A configuration value or an argument is invalid.
    InvalidConfig(String),
    /// Stored data does not have the expected shape.
    Corrupted(String),
    /// A checksum did not match; both values in lowercase hexadecimal.
    ChecksumMismatch { expected: String, actual: String },
    /// The write-ahead log holds an invalid entry.
    Wal(String),
    /// A consensus-level failure.
    Raft(String),
    /// This node is not the leader; the leader's id, or `unknown`.
    NotLeader(String),
    /// A consensus operation did not finish in time.
    ConsensusTimeout,
    /// No volume is healthy.
    NoHealthyVolumes,
    /// Fewer healthy volumes than replicas.
    InsufficientReplicas { needed: usize, available: usize },
    /// Something went wrong inside the store.
    Internal(String),
    /// Reading or writing bytes failed; the message of the failure.
    Io(String),
    /// Something asked for does not exist.
    NotFound(String),
    /// Any other failure.
    Other(String),
}

/// The message an error is displayed with.
pub open spec fn error_message(e: Error) -> Seq<char> {
    match e {
        Error::InvalidConfig(m) => "invalid configuration: "@ + m@,
        Error::Corrupted(m) => "data corrupted: "@ + m@,
        Error::ChecksumMismatch { expected, actual } =>
            "checksum mismatch: expected "@ + expected@ + ", got "@ + actual@,
        Error::Wal(m) => "WAL error: "@ + m@,
        Error::Raft(m) => "raft error: "@ + m@,
        Error::NotLeader(l) => "not the leader (leader: "@ + l@ + ")"@,
        Error::ConsensusTimeout => "consensus timeout"@,
        Error::NoHealthyVolumes => "no healthy volumes"@,
        Error::InsufficientReplicas { needed, available } =>
            "insufficient replicas: need "@ + crate::text::decimal(needed as nat) + ", have "@
                + crate::text::decimal(available as nat),
        Error::Internal(m) => "internal error: "@ + m@,
        Error::Io(m) => "I/O error: "@ + m@,
        Error::NotFound(m) => "not found: "@ + m@,
        Error::Other(m) => m@,
    }
}

fn prefixed(prefix: &str, m: &String) -> (r: String)
    ensures
        r@ == prefix@ + m@,
{
    let mut s = prefix.to_string();
    s.append(m.as_str());
    s
}

impl Error {
    /// The message this error is displayed with.
    pub fn message(&self) -> (r: String)
        ensures
            r@ == error_message(*self),
    {
        proof {
            reveal_strlit("invalid configuration: ");
            reveal_strlit("data corrupted: ");
            reveal_strlit("checksum mismatch: expected ");
            reveal_strlit(", got ");
            reveal_strlit("WAL error: ");
            reveal_strlit("raft error: ");
            reveal_strlit("not the leader (leader: ");
            reveal_strlit(")");
            reveal_strlit("consensus timeout");
            reveal_strlit("no healthy volumes");
            reveal_strlit("insufficient replicas: need ");
            reveal_strlit(", have ");
            reveal_strlit("internal error: ");
            reveal_strlit("I/O error: ");
            reveal_strlit("not found: ");
        }
        match self {
            Error::InvalidConfig(m) => prefixed("invalid configuration: ", m),
            Error::Corrupted(m) => prefixed("data corrupted: ", m),
            Error::ChecksumMismatch { expected, actual } => {
                let mut s = prefixed("checksum mismatch: expected ", expected);
                s.append(", got ");
                s.append(actual.as_str());
                s
            },
            Error::Wal(m) => prefixed("WAL error: ", m),
            Error::Raft(m) => prefixed("raft error: ", m),
            Error::NotLeader(l) => {
                let mut s = prefixed("not the leader (leader: ", l);
                s.append(")");
                s
            },
            Error::ConsensusTimeout => String::from_str("consensus timeout"),
            Error::NoHealthyVolumes => String::from_str("no healthy volumes"),
            Error::InsufficientReplicas { needed, available } => {
                let mut s = String::from_str("insufficient replicas: need ");
                let n = decimal_string(*needed as u64);
                s.append(n.as_str());
                s.append(", have ");
                let a = decimal_string(*available as u64);
                s.append(a.as_str());
                s
            },
            Error::Internal(m) => prefixed("internal error: ", m),
            Error::Io(m) => prefixed("I/O error: ", m),
            Error::NotFound(m) => prefixed("not found: ", m),
            Error::Other(m) => m.clone(),
        }
    }
}

} // verus!
