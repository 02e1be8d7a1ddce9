//! Archive utility. Compression itself is stubbed: the pipeline
//! `Zipper -> Zip -> Compressed` carries the directory name through and
//! `memory` yields a fixed placeholder payload.

use vstd::prelude::*;

verus! {

pub struct Zipper {
    directory: String,
}

impl Zipper {
    /// The directory this zipper was created for.
    pub closed spec fn dir(&self) -> Seq<char> {
        self.directory@
    }

    pub fn new(directory: &str) -> (r: Self)
        ensures
            r.dir() == directory@,
    {
        Self { directory: String::from_str(directory) }
    }

    pub fn zip(&self) -> (r: Zip)
        ensures
            r.dir() == self.dir(),
    {
        Zip::new(self.directory.as_str())
    }
}

pub struct Zip {
    directory: String,
}

impl Zip {
    /// The directory this archive was created for.
    pub closed spec fn dir(&self) -> Seq<char> {
        self.directory@
    }

    pub fn new(directory: &str) -> (r: Self)
        ensures
            r.dir() == directory@,
    {
        Self { directory: String::from_str(directory) }
    }

    pub fn compress(&self) -> (r: Compressed)
        ensures
            r.dir() == self.dir(),
    {
        Compressed::new(self.directory.as_str())
    }
}

pub struct Compressed {
    directory: String,
}

impl Compressed {
    /// The directory this compressed archive was created for.
    pub closed spec fn dir(&self) -> Seq<char> {
        self.directory@
    }

    pub fn new(directory: &str) -> (r: Self)
        ensures
            r.dir() == directory@,
    {
        Self { directory: String::from_str(directory) }
    }

    /// Stubbed compression output: always the fixed three-byte payload.
    pub fn memory(&self) -> (r: Result<Vec<u8>, ()>)
        ensures
            (r matches Ok(bytes) && bytes@ == seq![1u8, 2u8, 3u8]),
    {
        let mut bytes: Vec<u8> = Vec::new();
        bytes.push(1);
        bytes.push(2);
        bytes.push(3);
        assert(bytes@ =~= seq![1u8, 2u8, 3u8]);
        Ok(bytes)
    }
}

} // verus!
