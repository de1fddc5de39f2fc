use vstd::prelude::*;

verus! {

/// The configuration record the pipeline consumes.  It is produced by the
/// command-line shell outside the library and never re-parsed here.
#[derive(Debug, Clone)]
pub struct Config {
    pub path: String,
    pub cols: Option<usize>,
    /// Comma separated ignore list, matched as one substring haystack.
    pub ignore: Option<String>,
    pub all: bool,
    pub long: bool,
    pub numeric: bool,
    pub humanable: bool,
    pub reverse: bool,
    pub sort_type: Option<SortType>,
    pub recursive: Option<RecursionOptions>,
    pub one_col: bool,
    pub inode: bool,
    pub json_mini: bool,
    pub json_big: bool,
}

#[derive(Debug, Clone, Copy, PartialEq, Eq, Structural)]
pub enum RecursionOptions {
    Depth(usize),
    Unlimited,
    No,
}

/// The safety ceiling used in place of truly unbounded recursion.
pub const UNLIMITED_DEPTH_CEILING: usize = 40;

impl RecursionOptions {
    /// The number of directory levels below the root that this policy
    /// expands: an explicit depth, the fixed ceiling for `Unlimited`,
    /// and zero for `No`.
    pub fn depth_value(&self) -> (r: usize)
        ensures
            r == self.depth_value_spec(),
    {
        match self {
            RecursionOptions::Depth(depth) => *depth,
            RecursionOptions::Unlimited => UNLIMITED_DEPTH_CEILING,
            RecursionOptions::No => 0,
        }
    }

    pub open spec fn depth_value_spec(&self) -> usize {
        match self {
            RecursionOptions::Depth(depth) => *depth,
            RecursionOptions::Unlimited => UNLIMITED_DEPTH_CEILING,
            RecursionOptions::No => 0,
        }
    }
}

#[derive(Debug, Clone, Copy, PartialEq, Eq, Structural)]
pub enum SortType {
    Name,
    Size,
    Time,
}

/// Two configurations hold the same settings, compared by view.
pub open spec fn config_like(a: Config, b: Config) -> bool {
    &&& a.path@ == b.path@
    &&& a.cols == b.cols
    &&& match (a.ignore, b.ignore) {
        (Option::Some(x), Option::Some(y)) => x@ == y@,
        (Option::None, Option::None) => true,
        _ => false,
    }
    &&& a.all == b.all
    &&& a.long == b.long
    &&& a.numeric == b.numeric
    &&& a.humanable == b.humanable
    &&& a.reverse == b.reverse
    &&& a.sort_type == b.sort_type
    &&& a.recursive == b.recursive
    &&& a.one_col == b.one_col
    &&& a.inode == b.inode
    &&& a.json_mini == b.json_mini
    &&& a.json_big == b.json_big
}

impl Config {
    /// A copy of the configuration, alike in every view.
    pub fn duplicate(&self) -> (r: Config)
        ensures
            config_like(*self, r),
    {
        Config {
            path: self.path.clone(),
            cols: self.cols,
            ignore: match &self.ignore {
                Some(x) => Some(x.clone()),
                None => None,
            },
            all: self.all,
            long: self.long,
            numeric: self.numeric,
            humanable: self.humanable,
            reverse: self.reverse,
            sort_type: self.sort_type,
            recursive: self.recursive,
            one_col: self.one_col,
            inode: self.inode,
            json_mini: self.json_mini,
            json_big: self.json_big,
        }
    }
}

} // verus!
