//! The configuration of the store.

use vstd::prelude::*;

verus! {

/// The configuration of the store: the directory that holds its data.
#[derive(Debug)]
pub struct IoConfig {
    data_dir: String,
}

/// A configuration in the making.
#[derive(Debug)]
pub struct IoConfigBuilder {
    data_dir: Option<String>,
}

impl IoConfig {
    /// The directory that holds the data, as a mathematical value.
    pub closed spec fn dir(&self) -> Seq<char> {
        self.data_dir@
    }

    /// A configuration in the making, with nothing set.
    pub fn builder() -> (builder: IoConfigBuilder)
        ensures
            builder.dir().is_none(),
    {
        IoConfigBuilder::new()
    }

    /// The directory that holds the data.
    pub fn data_dir(&self) -> (dir: String)
        ensures
            dir@ == self.dir(),
    {
        self.data_dir.clone()
    }
}

impl IoConfigBuilder {
    /// The directory that was set, if one was set.
    pub closed spec fn dir(&self) -> Option<Seq<char>> {
        match self.data_dir {
            Some(dir) => Some(dir@),
            None => None,
        }
    }

    /// A configuration in the making, with nothing set.
    pub fn new() -> (builder: IoConfigBuilder)
        ensures
            builder.dir().is_none(),
    {
        IoConfigBuilder { data_dir: None }
    }

    /// Sets the directory that holds the data.
    pub fn data_dir(self, data_dir: String) -> (builder: IoConfigBuilder)
        ensures
            builder.dir() == Some(data_dir@),
    {
        IoConfigBuilder { data_dir: Some(data_dir) }
    }

    /// Whether the directory was set, so that the configuration can be built.
    pub fn is_complete(&self) -> (complete: bool)
        ensures
            complete == self.dir().is_some(),
    {
        self.data_dir.is_some()
    }

    /// The configuration.
    pub fn build(self) -> (config: IoConfig)
        requires
            self.dir().is_some(),
        ensures
            config.dir() == self.dir().unwrap(),
    {
        match self.data_dir {
            Some(data_dir) => IoConfig { data_dir },
            None => vstd::pervasive::unreached(),
        }
    }
}

} // verus!
