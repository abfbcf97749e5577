use vstd::prelude::*;

verus! {

/// One reference sequence of an alignment file header.
#[derive(Debug)]
pub struct HeaderSQ {
    tid: i32,
    name: String,
    len: usize,
}

impl HeaderSQ {
    pub closed spec fn spec_tid(&self) -> i32 {
        self.tid
    }

    pub closed spec fn spec_name(&self) -> Seq<char> {
        self.name@
    }

    pub closed spec fn spec_len(&self) -> usize {
        self.len
    }

    pub fn new(tid: i32, name: String, len: usize) -> (r: Self)
        ensures
            r.spec_tid() == tid,
            r.spec_name() == name@,
            r.spec_len() == len,
    {
        Self { tid, name, len }
    }

    pub fn get_tid(&self) -> (r: i32)
        ensures
            r == self.spec_tid(),
    {
        self.tid
    }

    pub fn get_name(&self) -> (r: &str)
        ensures
            r@ == self.spec_name(),
    {
        self.name.as_str()
    }

    pub fn get_len(&self) -> (r: usize)
        ensures
            r == self.spec_len(),
    {
        self.len
    }
}

} // verus!
