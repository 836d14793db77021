use vstd::prelude::*;

verus! {

/// A logical command as it stands in the log.
pub enum Command {
    Put(String, String),
    Rm(String),
}

/// The mathematical value of a command: keys and values as character sequences.
pub enum Op {
    Put(Seq<char>, Seq<char>),
    Del(Seq<char>),
}

impl Op {
    pub open spec fn key(self) -> Seq<char> {
        match self {
            Op::Put(k, _) => k,
            Op::Del(k) => k,
        }
    }
}

impl View for Command {
    type V = Op;

    open spec fn view(&self) -> Op {
        match self {
            Command::Put(k, v) => Op::Put(k@, v@),
            Command::Rm(k) => Op::Del(k@),
        }
    }
}

} // verus!
