use vstd::prelude::*;
use crate::command::{Config, SortType};
use crate::data_op::{
    filter_shown, format_term_spec, grid_exec, join_names, join_with, long_lines_spec,
    numbered_spec, reverse_entries, shown_filter_spec, sort_entries, sort_spec, short_names_spec,
    PreparedData, SortKey,
};
use crate::files::FileSystemEntry;
use crate::json::{short_json_spec, Serializer};

verus! {

/// The step-by-step pipeline over one listed directory: filter, sort,
/// prepare display lines, and lay them out.
pub struct Printer {
    config: Config,
    start_dir: FileSystemEntry,
    names: Vec<String>,
}

/// The sorted order this pipeline applies: the configured key — names
/// compared by their styled display string here — then the optional
/// reversal.
pub open spec fn pipeline_sorted_spec(s: Seq<FileSystemEntry>, config: Config) -> Seq<
    FileSystemEntry,
> {
    let t = match config.sort_type {
        Option::Some(SortType::Size) => sort_spec(s, SortKey::Size),
        Option::Some(SortType::Time) => sort_spec(s, SortKey::Time),
        Option::Some(SortType::Name) => sort_spec(s, SortKey::StyledName),
        Option::None => s,
    };
    if config.reverse {
        t.reverse()
    } else {
        t
    }
}

impl Printer {
    pub closed spec fn config_spec(&self) -> Config {
        self.config
    }

    pub closed spec fn start_dir_spec(&self) -> FileSystemEntry {
        self.start_dir
    }

    pub closed spec fn names_spec(&self) -> Seq<Seq<char>> {
        self.names.deep_view()
    }

    /// The directory's children; the pipeline assumes the start entry
    /// is a directory.
    pub open spec fn entries_spec(&self) -> Seq<FileSystemEntry> {
        self.start_dir_spec().entries_spec()
    }

    pub fn new(config: Config, start_dir: FileSystemEntry) -> (r: Self)
        ensures
            r.config_spec() == config,
            r.start_dir_spec() == start_dir,
            r.names_spec() == Seq::<Seq<char>>::empty(),
    {
        let r = Self { config, start_dir, names: Vec::new() };
        proof {
            assert(r.names_spec() =~= Seq::<Seq<char>>::empty());
        }
        r
    }

    /// When a structured-record mode is selected, its full output;
    /// `None` otherwise, and the plain pipeline continues.
    pub fn json_checker(&self) -> (r: Option<String>)
        ensures
            self.config_spec().json_mini ==> (r matches Some(s) && s@ == short_json_spec(
                self.start_dir_spec(),
            )),
            !self.config_spec().json_mini && self.config_spec().json_big ==> (r matches Some(s)
                && s@ == Seq::<char>::empty()),
            !self.config_spec().json_mini && !self.config_spec().json_big ==> r is None,
    {
        if self.config.json_mini {
            Some(self.start_dir.short_json())
        } else if self.config.json_big {
            Some(self.start_dir.long_json())
        } else {
            None
        }
    }

    /// Drops hidden entries unless all are shown.
    pub fn filter(&mut self)
        requires
            old(self).start_dir_spec() is Directory,
        ensures
            final(self).config_spec() == old(self).config_spec(),
            final(self).names_spec() == old(self).names_spec(),
            final(self).start_dir_spec() is Directory,
            final(self).entries_spec() == shown_filter_spec(
                old(self).entries_spec(),
                old(self).config_spec().all,
            ),
            crate::walk::same_core(old(self).start_dir_spec(), final(self).start_dir_spec()),
    {
        let all = self.config.all;
        match &mut self.start_dir {
            FileSystemEntry::Directory { entries, .. } => {
                let mut tmp: Vec<FileSystemEntry> = Vec::new();
                core::mem::swap(entries, &mut tmp);
                let filtered = filter_shown(tmp, all);
                *entries = filtered;
            },
            _ => {},
        }
    }

    /// Sorts by the configured key — names by their styled string —
    /// then reverses when asked.
    pub fn sort(&mut self)
        requires
            old(self).start_dir_spec() is Directory,
        ensures
            final(self).config_spec() == old(self).config_spec(),
            final(self).names_spec() == old(self).names_spec(),
            final(self).start_dir_spec() is Directory,
            final(self).entries_spec() == pipeline_sorted_spec(
                old(self).entries_spec(),
                old(self).config_spec(),
            ),
            crate::walk::same_core(old(self).start_dir_spec(), final(self).start_dir_spec()),
    {
        let key: Option<SortKey> = match &self.config.sort_type {
            Some(SortType::Size) => Some(SortKey::Size),
            Some(SortType::Time) => Some(SortKey::Time),
            Some(SortType::Name) => Some(SortKey::StyledName),
            None => None,
        };
        let reverse = self.config.reverse;
        match &mut self.start_dir {
            FileSystemEntry::Directory { entries, .. } => {
                let mut tmp: Vec<FileSystemEntry> = Vec::new();
                core::mem::swap(entries, &mut tmp);
                match &key {
                    Some(k) => {
                        tmp = sort_entries(tmp, k);
                    },
                    None => {},
                }
                if reverse {
                    tmp = reverse_entries(tmp);
                }
                *entries = tmp;
            },
            _ => {},
        }
    }

    /// Appends the styled short names of the entries to the prepared
    /// lines.
    pub fn prepare_short(&mut self)
        requires
            old(self).start_dir_spec() is Directory,
        ensures
            final(self).config_spec() == old(self).config_spec(),
            final(self).start_dir_spec() == old(self).start_dir_spec(),
            final(self).names_spec() == old(self).names_spec() + short_names_spec(
                old(self).entries_spec(),
            ),
    {
        let temp = match &self.start_dir {
            FileSystemEntry::Directory { entries, .. } => PreparedData::prepare_short(
                entries.as_slice(),
                &self.config,
            ),
            _ => Vec::new(),
        };
        let mut i: usize = 0;
        let ghost added = temp.deep_view();
        let ghost base = self.names.deep_view();
        let ghost base_len = self.names@.len();
        while i < temp.len()
            invariant
                i <= temp@.len(),
                added == temp.deep_view(),
                added.len() == temp@.len(),
                base.len() == base_len,
                self.names@.len() == base_len + i,
                forall|k: int| 0 <= k < base_len ==> #[trigger] self.names@[k]@ == base[k],
                forall|k: int|
                    base_len <= k < base_len + i ==> #[trigger] self.names@[k]@ == added[k
                        - base_len],
                self.config == old(self).config,
                self.start_dir == old(self).start_dir,
            decreases temp@.len() - i,
        {
            let s = temp[i].clone();
            proof {
                assert(added[i as int] == temp@[i as int]@);
            }
            self.names.push(s);
            i = i + 1;
        }
        proof {
            let dv = self.names.deep_view();
            assert(dv.len() == self.names@.len());
            assert forall|k: int| 0 <= k < dv.len() implies dv[k] == self.names@[k]@ by {
                assert(dv[k] == self.names@[k].deep_view());
            }
            assert(self.names.deep_view() =~= base + added);
        }
    }

    /// Appends the long-format lines of the entries — aligned sizes and
    /// timestamps — to the prepared lines.
    pub fn prepare_long(&mut self)
        requires
            old(self).start_dir_spec() is Directory,
        ensures
            final(self).config_spec() == old(self).config_spec(),
            final(self).start_dir_spec() == old(self).start_dir_spec(),
            final(self).names_spec() == old(self).names_spec() + long_lines_spec(
                old(self).entries_spec(),
                old(self).config_spec(),
            ),
    {
        let temp = match &self.start_dir {
            FileSystemEntry::Directory { entries, .. } => PreparedData::prepare_long(
                entries.as_slice(),
                &self.config,
            ),
            _ => Vec::new(),
        };
        let mut i: usize = 0;
        let ghost added = temp.deep_view();
        let ghost base = self.names.deep_view();
        let ghost base_len = self.names@.len();
        while i < temp.len()
            invariant
                i <= temp@.len(),
                added == temp.deep_view(),
                added.len() == temp@.len(),
                base.len() == base_len,
                self.names@.len() == base_len + i,
                forall|k: int| 0 <= k < base_len ==> #[trigger] self.names@[k]@ == base[k],
                forall|k: int|
                    base_len <= k < base_len + i ==> #[trigger] self.names@[k]@ == added[k
                        - base_len],
                self.config == old(self).config,
                self.start_dir == old(self).start_dir,
            decreases temp@.len() - i,
        {
            let s = temp[i].clone();
            proof {
                assert(added[i as int] == temp@[i as int]@);
            }
            self.names.push(s);
            i = i + 1;
        }
        proof {
            let dv = self.names.deep_view();
            assert(dv.len() == self.names@.len());
            assert forall|k: int| 0 <= k < dv.len() implies dv[k] == self.names@[k]@ by {
                assert(dv[k] == self.names@[k].deep_view());
            }
            assert(self.names.deep_view() =~= base + added);
        }
    }

    /// Prepares long or short lines and numbers them when asked.
    pub fn prepare(&mut self)
        requires
            old(self).start_dir_spec() is Directory,
            old(self).names_spec().len() == 0,
        ensures
            final(self).config_spec() == old(self).config_spec(),
            final(self).start_dir_spec() == old(self).start_dir_spec(),
            final(self).names_spec() == crate::data_op::prepared_spec(
                old(self).entries_spec(),
                old(self).config_spec(),
            ),
    {
        if self.config.long {
            self.prepare_long();
        } else {
            self.prepare_short();
        }
        proof {
            assert(Seq::<Seq<char>>::empty() + short_names_spec(old(self).entries_spec())
                =~= short_names_spec(old(self).entries_spec()));
            assert(Seq::<Seq<char>>::empty() + long_lines_spec(
                old(self).entries_spec(),
                old(self).config_spec(),
            ) =~= long_lines_spec(old(self).entries_spec(), old(self).config_spec()));
        }
        if self.config.numeric {
            self.add_numbers_to_names();
        }
    }

    /// Prefixes every prepared line with its one-based index.
    pub fn add_numbers_to_names(&mut self)
        ensures
            final(self).config_spec() == old(self).config_spec(),
            final(self).start_dir_spec() == old(self).start_dir_spec(),
            final(self).names_spec() == numbered_spec(old(self).names_spec()),
    {
        let mut tmp: Vec<String> = Vec::new();
        core::mem::swap(&mut self.names, &mut tmp);
        let numbered = PreparedData::add_numbers(tmp);
        self.names = numbered;
    }

    /// The column count the configuration fixes: an explicit count, or
    /// one column when single-column output is selected.
    pub open spec fn cols_value_spec(config: Config) -> Option<usize> {
        if config.cols is Some {
            config.cols
        } else if config.one_col {
            Some(1usize)
        } else {
            Option::None
        }
    }

    pub fn get_config_cols_value(&self) -> (r: Option<usize>)
        ensures
            r == Self::cols_value_spec(self.config_spec()),
    {
        if let Some(cols) = self.config.cols {
            Some(cols)
        } else if self.config.one_col {
            Some(1)
        } else {
            None
        }
    }

    /// The short layout of the prepared lines: by the fixed column
    /// count when one is configured, else by the terminal width.
    /// This pipeline pads every cell to the full column width, with no
    /// escape adjustment.
    pub fn print_advance_short_by(&self, term: Option<(u16, u16)>) -> (r: String)
        requires
            Self::cols_value_spec(self.config_spec()) matches Some(c) ==> c >= 1,
        ensures
            r@ == (match Self::cols_value_spec(self.config_spec()) {
                Option::Some(c) => plain_cols_spec(self.names_spec(), c as int),
                Option::None => format_term_spec(self.names_spec(), term),
            }),
    {
        if let Some(cols) = self.get_config_cols_value() {
            if self.names.is_empty() {
                return String::new();
            }
            if self.names.len() <= cols {
                return join_names(&self.names, " ");
            }
            grid_exec(&self.names, cols, false)
        } else {
            let formatter = crate::data_op::TextFormatter::new(
                copy_names(&self.names),
                false,
                None,
                term,
            );
            formatter.format_with_terminal_width()
        }
    }

    /// One prepared line per entry, newline separated.
    pub fn print_long(&self) -> (r: String)
        ensures
            r@ == join_with(self.names_spec(), "\n"@),
    {
        join_names(&self.names, "\n")
    }

    /// The final text: long lines, or the short layout.
    pub fn print(&self, term: Option<(u16, u16)>) -> (r: String)
        requires
            Self::cols_value_spec(self.config_spec()) matches Some(c) ==> c >= 1,
        ensures
            self.config_spec().long ==> r@ == join_with(self.names_spec(), "\n"@),
            !self.config_spec().long ==> r@ == (match Self::cols_value_spec(self.config_spec()) {
                Option::Some(c) => plain_cols_spec(self.names_spec(), c as int),
                Option::None => format_term_spec(self.names_spec(), term),
            }),
    {
        if self.config.long {
            self.print_long()
        } else {
            self.print_advance_short_by(term)
        }
    }
}

/// The fixed-column layout without the escape adjustment: what this
/// pipeline's grid produces.
pub open spec fn plain_cols_spec(parts: Seq<Seq<char>>, cols: int) -> Seq<char> {
    if parts.len() == 0 {
        Seq::<char>::empty()
    } else if parts.len() <= cols {
        join_with(parts, " "@)
    } else {
        crate::data_op::grid_spec(parts, cols, false)
    }
}

/// A fresh vector holding the same strings.
fn copy_names(names: &Vec<String>) -> (r: Vec<String>)
    ensures
        r.deep_view() == names.deep_view(),
{
    let mut out: Vec<String> = Vec::new();
    let mut i: usize = 0;
    while i < names.len()
        invariant
            i <= names@.len(),
            out@.len() == i,
            forall|k: int| 0 <= k < i ==> #[trigger] out@[k]@ == names@[k]@,
        decreases names@.len() - i,
    {
        out.push(names[i].clone());
        i = i + 1;
    }
    proof {
        assert(out.deep_view() =~= names.deep_view());
    }
    out
}

} // verus!
