use vstd::prelude::*;
use vstd::string::StringExecFns;
use vstd::string::StrSliceExecFns;
use crate::files::FileSystemEntry;
use crate::text::dec_of;
use crate::text::u64_to_dec;

verus! {

/// `s` wrapped in double quotes, with no escaping of the content.
pub open spec fn quote_spec(s: Seq<char>) -> Seq<char> {
    seq!['"'] + s + seq!['"']
}

/// One object line: two spaces, the quoted key, a colon, the rendered
/// value, a comma on every line but the last, and a newline.
pub open spec fn field_spec(k: Seq<char>, v: Seq<char>, is_last: bool) -> Seq<char> {
    seq![' ', ' ', '"'] + k + seq!['"', ':', ' '] + v + (if is_last {
        Seq::<char>::empty()
    } else {
        seq![',']
    }) + seq!['\n']
}

/// The six fields every record opens with: type, name, size, mode and
/// the two ISO-8601 timestamps.
pub open spec fn head_fields_spec(
    kind_label: Seq<char>,
    name: Seq<char>,
    md: crate::files::MetaData,
) -> Seq<char> {
    "{\n"@ + field_spec("type"@, quote_spec(kind_label), false) + field_spec(
        "name"@,
        quote_spec(name),
        false,
    ) + field_spec("size"@, dec_of(md.size as nat), false) + field_spec(
        "mode"@,
        quote_spec(md.mode_str@),
        false,
    ) + field_spec("created_at"@, quote_spec(md.created_at.rfc3339_spec()), false) + field_spec(
        "modified_at"@,
        quote_spec(md.modified_at.rfc3339_spec()),
        false,
    )
}

/// The structured record of one entry: the common head fields, then the
/// variant's own field — `extension` for a file, the recursively
/// rendered `entries` array for a directory, `target` for a link.
pub open spec fn short_json_spec(e: FileSystemEntry) -> Seq<char>
    decreases e, 1int, 0int,
{
    match e {
        FileSystemEntry::File { base_info, metadata, extension } => {
            head_fields_spec("file"@, base_info.name@, metadata) + field_spec(
                "extension"@,
                quote_spec(
                    match extension {
                        Option::Some(x) => x@,
                        Option::None => "null"@,
                    },
                ),
                true,
            ) + "}"@
        },
        FileSystemEntry::Directory { base_info, metadata, entries } => {
            head_fields_spec("directory"@, base_info.name@, metadata) + field_spec(
                "entries"@,
                "[\n"@ + entries_json_spec(entries@, entries@.len() as int) + "\n]"@,
                true,
            ) + "}"@
        },
        FileSystemEntry::Link { base_info, metadata, target } => {
            head_fields_spec("link"@, base_info.name@, metadata) + field_spec(
                "target"@,
                quote_spec(target@),
                true,
            ) + "}"@
        },
    }
}

/// The records of the first `k` entries, joined by `,\n`.
pub open spec fn entries_json_spec(s: Seq<FileSystemEntry>, k: int) -> Seq<char>
    decreases s, 0int, k,
{
    if k <= 0 || k > s.len() {
        Seq::<char>::empty()
    } else if k == 1 {
        short_json_spec(s[0])
    } else {
        entries_json_spec(s, k - 1) + ",\n"@ + short_json_spec(s[k - 1])
    }
}

pub fn add_quotes(s: &str) -> (r: String)
    ensures
        r@ == quote_spec(s@),
{
    let mut out = String::new();
    out.push('"');
    out.append(s);
    out.push('"');
    proof {
        assert(out@ =~= quote_spec(s@));
    }
    out
}

pub fn form_field(buf: &mut String, k: &str, v: String, is_last: bool)
    ensures
        final(buf)@ == old(buf)@ + field_spec(k@, v@, is_last),
{
    buf.push(' ');
    buf.push(' ');
    buf.push('"');
    buf.append(k);
    buf.push('"');
    buf.push(':');
    buf.push(' ');
    buf.append(v.as_str());
    if !is_last {
        buf.push(',');
    }
    buf.push('\n');
    proof {
        assert(buf@ =~= old(buf)@ + field_spec(k@, v@, is_last));
    }
}

/// Renders one entry as a structured record.
#[verifier::rlimit(50)]
fn entry_short_json(e: &FileSystemEntry) -> (r: String)
    ensures
        r@ == short_json_spec(*e),
    decreases *e,
{
    let mut json = "{\n".to_owned();
    match e {
        FileSystemEntry::File { base_info, metadata, extension } => {
            form_field(&mut json, "type", add_quotes("file"), false);
            form_field(&mut json, "name", add_quotes(base_info.name.as_str()), false);
            form_field(&mut json, "size", u64_to_dec(metadata.size), false);
            form_field(&mut json, "mode", add_quotes(metadata.mode_str.as_str()), false);
            let created = metadata.created_at.to_rfc3339();
            form_field(&mut json, "created_at", add_quotes(created.as_str()), false);
            let modified = metadata.modified_at.to_rfc3339();
            form_field(&mut json, "modified_at", add_quotes(modified.as_str()), false);
            proof {
                assert(json@ == head_fields_spec("file"@, base_info.name@, *metadata));
            }
            let ext = match extension {
                Some(x) => add_quotes(x.as_str()),
                None => add_quotes("null"),
            };
            form_field(&mut json, "extension", ext, true);
            json.push('}');
            proof {
                reveal_strlit("}");
                assert(json@ =~= short_json_spec(*e));
            }
        },
        FileSystemEntry::Directory { base_info, metadata, entries } => {
            form_field(&mut json, "type", add_quotes("directory"), false);
            form_field(&mut json, "name", add_quotes(base_info.name.as_str()), false);
            form_field(&mut json, "size", u64_to_dec(metadata.size), false);
            form_field(&mut json, "mode", add_quotes(metadata.mode_str.as_str()), false);
            let created = metadata.created_at.to_rfc3339();
            form_field(&mut json, "created_at", add_quotes(created.as_str()), false);
            let modified = metadata.modified_at.to_rfc3339();
            form_field(&mut json, "modified_at", add_quotes(modified.as_str()), false);
            proof {
                assert(json@ == head_fields_spec("directory"@, base_info.name@, *metadata));
            }
            let mut children = "[\n".to_owned();
            proof {
                assert(children@ =~= "[\n"@ + entries_json_spec(entries@, 0));
            }
            let mut i: usize = 0;
            while i < entries.len()
                invariant
                    i <= entries@.len(),
                    *e matches FileSystemEntry::Directory { entries: es, .. } && es == entries,
                    children@ == "[\n"@ + entries_json_spec(entries@, i as int),
                decreases entries@.len() - i,
            {
                if i > 0 {
                    children.append(",\n");
                }
                let one = entry_short_json(&entries[i]);
                children.append(one.as_str());
                proof {
                    assert(children@ =~= "[\n"@ + entries_json_spec(entries@, i + 1));
                }
                i = i + 1;
            }
            children.append("\n]");
            form_field(&mut json, "entries", children, true);
            json.push('}');
            proof {
                reveal_strlit("}");
                assert(json@ =~= short_json_spec(*e));
            }
        },
        FileSystemEntry::Link { base_info, metadata, target } => {
            form_field(&mut json, "type", add_quotes("link"), false);
            form_field(&mut json, "name", add_quotes(base_info.name.as_str()), false);
            form_field(&mut json, "size", u64_to_dec(metadata.size), false);
            form_field(&mut json, "mode", add_quotes(metadata.mode_str.as_str()), false);
            let created = metadata.created_at.to_rfc3339();
            form_field(&mut json, "created_at", add_quotes(created.as_str()), false);
            let modified = metadata.modified_at.to_rfc3339();
            form_field(&mut json, "modified_at", add_quotes(modified.as_str()), false);
            proof {
                assert(json@ == head_fields_spec("link"@, base_info.name@, *metadata));
            }
            form_field(&mut json, "target", add_quotes(target.as_str()), true);
            json.push('}');
            proof {
                reveal_strlit("}");
                assert(json@ =~= short_json_spec(*e));
            }
        },
    }
    json
}

/// The structured-record renderings of an entry: the populated compact
/// form and the verbose form, which is not produced yet and stays
/// empty.
pub trait Serializer {
    spec fn short_json_view(&self) -> Seq<char>;

    spec fn long_json_view(&self) -> Seq<char>;

    fn short_json(&self) -> (r: String)
        ensures
            r@ == self.short_json_view(),
    ;

    fn long_json(&self) -> (r: String)
        ensures
            r@ == self.long_json_view(),
    ;
}

impl Serializer for FileSystemEntry {
    open spec fn short_json_view(&self) -> Seq<char> {
        short_json_spec(*self)
    }

    open spec fn long_json_view(&self) -> Seq<char> {
        Seq::empty()
    }

    fn short_json(&self) -> (r: String) {
        let out = entry_short_json(self);
        proof {
            assert(out@ == self.short_json_view());
        }
        out
    }

    fn long_json(&self) -> (r: String) {
        let out = String::new();
        proof {
            assert(out@ =~= Seq::<char>::empty());
            assert(self.long_json_view() == Seq::<char>::empty());
        }
        out
    }
}


pub open spec fn is_json_ws(c: char) -> bool {
    c == ' ' || c == '\t' || c == '\n' || c == '\r'
}

pub open spec fn is_json_digit(c: char) -> bool {
    48 <= (c as u32) <= 57
}

/// The first position at or after `i` that holds no whitespace.
pub open spec fn ws_end(s: Seq<char>, i: int) -> int
    decreases s.len() - i,
{
    if 0 <= i < s.len() && is_json_ws(s[i]) {
        ws_end(s, i + 1)
    } else {
        i
    }
}

/// The position after the closing quote of a string whose content
/// starts at `j`; a backslash skips the next character.
pub open spec fn string_end(s: Seq<char>, j: int) -> Option<int>
    decreases s.len() - j,
{
    if !(0 <= j < s.len()) {
        Option::None
    } else if s[j] == '"' {
        Option::Some(j + 1)
    } else if s[j] == '\\' {
        if j + 2 <= s.len() {
            string_end(s, j + 2)
        } else {
            Option::None
        }
    } else {
        string_end(s, j + 1)
    }
}

/// The first position at or after `j` that holds no digit.
pub open spec fn digits_end(s: Seq<char>, j: int) -> int
    decreases s.len() - j,
{
    if 0 <= j < s.len() && is_json_digit(s[j]) {
        digits_end(s, j + 1)
    } else {
        j
    }
}

pub open spec fn frac_end(s: Seq<char>, k: int) -> Option<int> {
    if 0 <= k < s.len() && s[k] == '.' {
        if k + 1 < s.len() && is_json_digit(s[k + 1]) {
            Option::Some(digits_end(s, k + 1))
        } else {
            Option::None
        }
    } else {
        Option::Some(k)
    }
}

pub open spec fn exp_end(s: Seq<char>, k: int) -> Option<int> {
    if 0 <= k < s.len() && (s[k] == 'e' || s[k] == 'E') {
        let j = if k + 1 < s.len() && (s[k + 1] == '+' || s[k + 1] == '-') {
            k + 2
        } else {
            k + 1
        };
        if j < s.len() && is_json_digit(s[j]) {
            Option::Some(digits_end(s, j))
        } else {
            Option::None
        }
    } else {
        Option::Some(k)
    }
}

/// The position after a number starting at `i`: an optional minus,
/// digits, an optional fraction, an optional exponent.
pub open spec fn number_end(s: Seq<char>, i: int) -> Option<int> {
    let j = if 0 <= i < s.len() && s[i] == '-' {
        i + 1
    } else {
        i
    };
    if 0 <= j < s.len() && is_json_digit(s[j]) {
        match frac_end(s, digits_end(s, j)) {
            Option::None => Option::None,
            Option::Some(k) => exp_end(s, k),
        }
    } else {
        Option::None
    }
}

/// The position after one JSON value starting at `i`.
pub open spec fn value_end(s: Seq<char>, i: int) -> Option<int>
    decreases s.len() - i, 2int,
{
    if !(0 <= i < s.len()) {
        Option::None
    } else {
        let c = s[i];
        if c == '{' {
            let j = ws_end(s, i + 1);
            if j <= i || j > s.len() {
                Option::None
            } else {
                members_end(s, j, true)
            }
        } else if c == '[' {
            let j = ws_end(s, i + 1);
            if j <= i || j > s.len() {
                Option::None
            } else {
                elements_end(s, j, true)
            }
        } else if c == '"' {
            string_end(s, i + 1)
        } else if c == 't' {
            if i + 4 <= s.len() && s[i + 1] == 'r' && s[i + 2] == 'u' && s[i + 3] == 'e' {
                Option::Some(i + 4)
            } else {
                Option::None
            }
        } else if c == 'f' {
            if i + 5 <= s.len() && s[i + 1] == 'a' && s[i + 2] == 'l' && s[i + 3] == 's' && s[i + 4]
                == 'e' {
                Option::Some(i + 5)
            } else {
                Option::None
            }
        } else if c == 'n' {
            if i + 4 <= s.len() && s[i + 1] == 'u' && s[i + 2] == 'l' && s[i + 3] == 'l' {
                Option::Some(i + 4)
            } else {
                Option::None
            }
        } else if c == '-' || is_json_digit(c) {
            number_end(s, i)
        } else {
            Option::None
        }
    }
}

/// The position after the members of an object, starting just inside
/// the braces at the first non-blank position; `first` allows an
/// immediate closing brace (no trailing commas otherwise).
pub open spec fn members_end(s: Seq<char>, i: int, first: bool) -> Option<int>
    decreases s.len() - i, 3int,
{
    if !(0 <= i < s.len()) {
        Option::None
    } else if s[i] == '}' && first {
        Option::Some(i + 1)
    } else if s[i] != '"' {
        Option::None
    } else {
        match string_end(s, i + 1) {
            Option::None => Option::None,
            Option::Some(ke) => {
                let j = ws_end(s, ke);
                if !(0 <= j < s.len()) || s[j] != ':' {
                    Option::None
                } else {
                    let v0 = ws_end(s, j + 1);
                    if v0 <= i || v0 > s.len() {
                        Option::None
                    } else {
                        match value_end(s, v0) {
                            Option::None => Option::None,
                            Option::Some(ve) => {
                                let w = ws_end(s, ve);
                                if !(0 <= w < s.len()) {
                                    Option::None
                                } else if s[w] == '}' {
                                    Option::Some(w + 1)
                                } else if s[w] == ',' {
                                    let n0 = ws_end(s, w + 1);
                                    if n0 <= i || n0 > s.len() {
                                        Option::None
                                    } else {
                                        members_end(s, n0, false)
                                    }
                                } else {
                                    Option::None
                                }
                            },
                        }
                    }
                }
            },
        }
    }
}

/// The position after the elements of an array, by the same rules.
pub open spec fn elements_end(s: Seq<char>, i: int, first: bool) -> Option<int>
    decreases s.len() - i, 3int,
{
    if !(0 <= i < s.len()) {
        Option::None
    } else if s[i] == ']' && first {
        Option::Some(i + 1)
    } else {
        match value_end(s, i) {
            Option::None => Option::None,
            Option::Some(ve) => {
                let w = ws_end(s, ve);
                if !(0 <= w < s.len()) {
                    Option::None
                } else if s[w] == ']' {
                    Option::Some(w + 1)
                } else if s[w] == ',' {
                    let n0 = ws_end(s, w + 1);
                    if n0 <= i || n0 > s.len() {
                        Option::None
                    } else {
                        elements_end(s, n0, false)
                    }
                } else {
                    Option::None
                }
            },
        }
    }
}

/// The text is one JSON value, possibly surrounded by whitespace:
/// braces, brackets and quotes balanced, no trailing commas.
pub open spec fn valid_json_spec(s: Seq<char>) -> bool {
    let i0 = ws_end(s, 0);
    match value_end(s, i0) {
        Option::None => false,
        Option::Some(e) => ws_end(s, e) == s.len(),
    }
}


fn json_ws_at(s: &str, j: usize) -> (r: bool)
    requires
        j < s@.len(),
    ensures
        r == is_json_ws(s@[j as int]),
{
    let c = s.get_char(j);
    c == ' ' || c == '\t' || c == '\n' || c == '\r'
}

fn json_digit_at(s: &str, j: usize) -> (r: bool)
    requires
        j < s@.len(),
    ensures
        r == is_json_digit(s@[j as int]),
{
    let c = s.get_char(j);
    48 <= c as u32 && c as u32 <= 57
}

fn ws_end_exec(s: &str, len: usize, i: usize) -> (r: usize)
    requires
        len == s@.len(),
        i <= len,
    ensures
        r as int == ws_end(s@, i as int),
        i <= r <= len,
{
    let mut j = i;
    while j < len && json_ws_at(s, j)
        invariant
            i <= j <= len,
            len == s@.len(),
            ws_end(s@, i as int) == ws_end(s@, j as int),
        decreases len - j,
    {
        j = j + 1;
    }
    j
}

fn string_end_exec(s: &str, len: usize, j: usize) -> (r: Option<usize>)
    requires
        len == s@.len(),
        j <= len,
    ensures
        r is Some <==> string_end(s@, j as int) is Some,
        r matches Some(v) ==> v as int == string_end(s@, j as int)->0 && j < v <= len,
    decreases len - j,
{
    if j >= len {
        None
    } else {
        let c = s.get_char(j);
        if c == '"' {
            Some(j + 1)
        } else if c == '\\' {
            if len - j >= 2 {
                string_end_exec(s, len, j + 2)
            } else {
                None
            }
        } else {
            string_end_exec(s, len, j + 1)
        }
    }
}

fn digits_end_exec(s: &str, len: usize, j: usize) -> (r: usize)
    requires
        len == s@.len(),
        j <= len,
    ensures
        r as int == digits_end(s@, j as int),
        j <= r <= len,
{
    let mut k = j;
    while k < len && json_digit_at(s, k)
        invariant
            j <= k <= len,
            len == s@.len(),
            digits_end(s@, j as int) == digits_end(s@, k as int),
        decreases len - k,
    {
        k = k + 1;
    }
    k
}

fn number_end_exec(s: &str, len: usize, i: usize) -> (r: Option<usize>)
    requires
        len == s@.len(),
        i <= len,
    ensures
        r is Some <==> number_end(s@, i as int) is Some,
        r matches Some(v) ==> v as int == number_end(s@, i as int)->0 && v <= len,
{
    let j = if i < len && s.get_char(i) == '-' {
        i + 1
    } else {
        i
    };
    if j < len && json_digit_at(s, j) {
        let k = digits_end_exec(s, len, j);
        let k2 = if k < len && s.get_char(k) == '.' {
            if k + 1 < len && json_digit_at(s, k + 1) {
                digits_end_exec(s, len, k + 1)
            } else {
                return None;
            }
        } else {
            k
        };
        proof {
            assert(frac_end(s@, k as int) == Some(k2 as int));
        }
        if k2 < len {
            let c = s.get_char(k2);
            if c == 'e' || c == 'E' {
                let j2 = if k2 + 1 < len {
                    let c2 = s.get_char(k2 + 1);
                    if c2 == '+' || c2 == '-' {
                        k2 + 2
                    } else {
                        k2 + 1
                    }
                } else {
                    k2 + 1
                };
                if j2 < len && json_digit_at(s, j2) {
                    Some(digits_end_exec(s, len, j2))
                } else {
                    None
                }
            } else {
                Some(k2)
            }
        } else {
            Some(k2)
        }
    } else {
        None
    }
}

fn value_end_exec(s: &str, len: usize, i: usize) -> (r: Option<usize>)
    requires
        len == s@.len(),
        i <= len,
    ensures
        r is Some <==> value_end(s@, i as int) is Some,
        r matches Some(v) ==> v as int == value_end(s@, i as int)->0 && v <= len,
    decreases len - i, 2int,
{
    if i >= len {
        None
    } else {
        let c = s.get_char(i);
        if c == '{' {
            let j = ws_end_exec(s, len, i + 1);
            members_end_exec(s, len, j, true)
        } else if c == '[' {
            let j = ws_end_exec(s, len, i + 1);
            elements_end_exec(s, len, j, true)
        } else if c == '"' {
            string_end_exec(s, len, i + 1)
        } else if c == 't' {
            if len - i >= 4 && s.get_char(i + 1) == 'r' && s.get_char(i + 2) == 'u' && s.get_char(
                i + 3,
            ) == 'e' {
                Some(i + 4)
            } else {
                None
            }
        } else if c == 'f' {
            if len - i >= 5 && s.get_char(i + 1) == 'a' && s.get_char(i + 2) == 'l' && s.get_char(
                i + 3,
            ) == 's' && s.get_char(i + 4) == 'e' {
                Some(i + 5)
            } else {
                None
            }
        } else if c == 'n' {
            if len - i >= 4 && s.get_char(i + 1) == 'u' && s.get_char(i + 2) == 'l' && s.get_char(
                i + 3,
            ) == 'l' {
                Some(i + 4)
            } else {
                None
            }
        } else if c == '-' || json_digit_at(s, i) {
            number_end_exec(s, len, i)
        } else {
            None
        }
    }
}

fn members_end_exec(s: &str, len: usize, i: usize, first: bool) -> (r: Option<usize>)
    requires
        len == s@.len(),
        i <= len,
    ensures
        r is Some <==> members_end(s@, i as int, first) is Some,
        r matches Some(v) ==> v as int == members_end(s@, i as int, first)->0 && v <= len,
    decreases len - i, 3int,
{
    if i >= len {
        None
    } else if s.get_char(i) == '}' && first {
        Some(i + 1)
    } else if s.get_char(i) != '"' {
        None
    } else {
        match string_end_exec(s, len, i + 1) {
            None => None,
            Some(ke) => {
                let j = ws_end_exec(s, len, ke);
                if j >= len || s.get_char(j) != ':' {
                    None
                } else {
                    let v0 = ws_end_exec(s, len, j + 1);
                    match value_end_exec(s, len, v0) {
                        None => None,
                        Some(ve) => {
                            let w = ws_end_exec(s, len, ve);
                            if w >= len {
                                None
                            } else if s.get_char(w) == '}' {
                                Some(w + 1)
                            } else if s.get_char(w) == ',' {
                                let n0 = ws_end_exec(s, len, w + 1);
                                if n0 <= i {
                                    None
                                } else {
                                    members_end_exec(s, len, n0, false)
                                }
                            } else {
                                None
                            }
                        },
                    }
                }
            },
        }
    }
}

fn elements_end_exec(s: &str, len: usize, i: usize, first: bool) -> (r: Option<usize>)
    requires
        len == s@.len(),
        i <= len,
    ensures
        r is Some <==> elements_end(s@, i as int, first) is Some,
        r matches Some(v) ==> v as int == elements_end(s@, i as int, first)->0 && v <= len,
    decreases len - i, 3int,
{
    if i >= len {
        None
    } else if s.get_char(i) == ']' && first {
        Some(i + 1)
    } else {
        match value_end_exec(s, len, i) {
            None => None,
            Some(ve) => {
                let w = ws_end_exec(s, len, ve);
                if w >= len {
                    None
                } else if s.get_char(w) == ']' {
                    Some(w + 1)
                } else if s.get_char(w) == ',' {
                    let n0 = ws_end_exec(s, len, w + 1);
                    if n0 <= i {
                        None
                    } else {
                        elements_end_exec(s, len, n0, false)
                    }
                } else {
                    None
                }
            },
        }
    }
}

/// Checks that the text is syntactically valid JSON.
pub fn is_valid_json(s: &str) -> (r: bool)
    ensures
        r == valid_json_spec(s@),
{
    let len = s.unicode_len();
    let i0 = ws_end_exec(s, len, 0);
    match value_end_exec(s, len, i0) {
        None => false,
        Some(e) => ws_end_exec(s, len, e) == len,
    }
}


/// Text that can sit inside a JSON string unescaped: no quote, no
/// backslash.
pub open spec fn safe_text(s: Seq<char>) -> bool {
    forall|k: int| 0 <= k < s.len() ==> s[k] != '"' && s[k] != '\\'
}

/// A non-pathological entry: every name, extension and target it holds
/// is safe to embed in a JSON string.
pub open spec fn json_safe_entry(e: FileSystemEntry) -> bool
    decreases e, 1int, 0int,
{
    match e {
        FileSystemEntry::File { base_info, metadata, extension } => safe_text(base_info.name@)
            && safe_text(metadata.mode_str@) && (match extension {
            Option::Some(x) => safe_text(x@),
            Option::None => true,
        }),
        FileSystemEntry::Directory { base_info, metadata, entries } => safe_text(base_info.name@)
            && safe_text(metadata.mode_str@) && json_safe_children(
            entries@,
            entries@.len() as int,
        ),
        FileSystemEntry::Link { base_info, metadata, target } => safe_text(base_info.name@)
            && safe_text(metadata.mode_str@) && safe_text(target@),
    }
}

pub open spec fn json_safe_children(s: Seq<FileSystemEntry>, k: int) -> bool
    decreases s, 0int, k,
{
    if k <= 0 || k > s.len() {
        true
    } else {
        json_safe_children(s, k - 1) && json_safe_entry(s[k - 1])
    }
}

/// A whitespace run ends exactly at its first non-blank position.
proof fn lemma_ws_run(s: Seq<char>, i: int, j: int)
    requires
        0 <= i <= j <= s.len(),
        forall|k: int| i <= k < j ==> is_json_ws(#[trigger] s[k]),
        j == s.len() || !is_json_ws(s[j]),
    ensures
        ws_end(s, i) == j,
    decreases j - i,
{
    if i < j {
        lemma_ws_run(s, i + 1, j);
    }
}

/// Scanning a safe string body lands just past its closing quote.
proof fn lemma_string_scan(s: Seq<char>, i: int, c: Seq<char>)
    requires
        0 <= i,
        i + c.len() + 1 <= s.len(),
        forall|k: int| 0 <= k < c.len() ==> s[i + k] == #[trigger] c[k],
        s[i + c.len()] == '"',
        safe_text(c),
    ensures
        string_end(s, i) == Some(i + c.len() + 1),
    decreases c.len(),
{
    if c.len() == 0 {
        assert(s[i] == '"');
    } else {
        assert(s[i] == c[0]);
        assert(c[0] != '"' && c[0] != '\\');
        let c2 = c.drop_first();
        assert forall|k: int| 0 <= k < c2.len() implies s[i + 1 + k] == #[trigger] c2[k] by {
            assert(c2[k] == c[k + 1]);
        }
        assert(s[i + 1 + c2.len()] == '"');
        lemma_string_scan(s, i + 1, c2);
    }
}

/// Every character of a decimal rendering is a digit.
proof fn lemma_dec_of_digits(n: nat)
    ensures
        forall|k: int| 0 <= k < dec_of(n).len() ==> is_json_digit(#[trigger] dec_of(n)[k]),
        dec_of(n).len() >= 1,
    decreases n,
{
    if n < 10 {
        assert(dec_of(n)[0] == crate::text::digit_char(n as int));
    } else {
        lemma_dec_of_digits(n / 10);
        let d = dec_of(n);
        let pre = dec_of(n / 10);
        assert forall|k: int| 0 <= k < d.len() implies is_json_digit(#[trigger] d[k]) by {
            if k < pre.len() {
                assert(d[k] == pre[k]);
            } else {
                assert(d[k] == crate::text::digit_char((n % 10) as int));
            }
        }
    }
}

/// A digit run ends exactly at its first non-digit position.
proof fn lemma_digits_run(s: Seq<char>, i: int, j: int)
    requires
        0 <= i <= j <= s.len(),
        forall|k: int| i <= k < j ==> is_json_digit(#[trigger] s[k]),
        j == s.len() || !is_json_digit(s[j]),
    ensures
        digits_end(s, i) == j,
    decreases j - i,
{
    if i < j {
        assert(!is_json_ws(s[i]));
        lemma_digits_run(s, i + 1, j);
    }
}

/// Digits are not structural JSON characters.
proof fn lemma_digit_char_facts(c: char)
    requires
        is_json_digit(c),
    ensures
        c != '"' && c != '\\' && c != '-' && c != '.' && c != 'e' && c != 'E' && c != ','
            && c != '}' && c != ']' && c != '{' && c != '[' && c != 't' && c != 'f' && c != 'n'
            && !is_json_ws(c),
{
}


/// A value can only start at a non-blank character.
proof fn lemma_value_start(s: Seq<char>, i: int)
    requires
        value_end(s, i) is Some,
    ensures
        0 <= i < s.len(),
        !is_json_ws(s[i]),
{
}

/// A member list can only continue at an opening quote.
proof fn lemma_members_start(s: Seq<char>, i: int)
    requires
        members_end(s, i, false) is Some,
    ensures
        0 <= i < s.len(),
        s[i] == '"',
{
}

/// A quoted safe string parses as one value.
proof fn lemma_value_string(s: Seq<char>, vpos: int, c: Seq<char>)
    requires
        0 <= vpos,
        vpos + c.len() + 2 <= s.len(),
        s[vpos] == '"',
        forall|t: int| 0 <= t < c.len() ==> s[vpos + 1 + t] == #[trigger] c[t],
        s[vpos + 1 + c.len()] == '"',
        safe_text(c),
    ensures
        value_end(s, vpos) == Some(vpos + c.len() + 2),
{
    lemma_string_scan(s, vpos + 1, c);
}

/// A decimal rendering followed by anything that cannot extend a
/// number parses as one value.
proof fn lemma_value_number(s: Seq<char>, vpos: int, n: nat)
    requires
        0 <= vpos,
        vpos + dec_of(n).len() <= s.len(),
        forall|t: int| 0 <= t < dec_of(n).len() ==> s[vpos + t] == #[trigger] dec_of(n)[t],
        vpos + dec_of(n).len() == s.len() || {
            let c = s[vpos + dec_of(n).len()];
            !is_json_digit(c) && c != '.' && c != 'e' && c != 'E'
        },
    ensures
        value_end(s, vpos) == Some(vpos + dec_of(n).len()),
{
    lemma_dec_of_digits(n);
    let end = vpos + dec_of(n).len();
    assert(s[vpos] == dec_of(n)[0]);
    assert(is_json_digit(s[vpos]));
    lemma_digit_char_facts(s[vpos]);
    assert forall|k: int| vpos <= k < end implies is_json_digit(#[trigger] s[k]) by {
        assert(s[k] == dec_of(n)[k - vpos]);
    }
    lemma_digits_run(s, vpos, end);
    assert(number_end(s, vpos) == Some(end));
}

/// One middle member of an object: a safe key, a colon, a value that
/// parses, a comma, and the rest of the members parsing after the
/// separator.
proof fn lemma_member_mid(s: Seq<char>, iq: int, k: Seq<char>, vlen: int, end: int, first: bool)
    requires
        0 <= iq,
        s[iq] == '"',
        forall|t: int| 0 <= t < k.len() ==> s[iq + 1 + t] == #[trigger] k[t],
        safe_text(k),
        s[iq + 1 + k.len()] == '"',
        s[iq + 2 + k.len()] == ':',
        s[iq + 3 + k.len()] == ' ',
        vlen >= 1,
        value_end(s, iq + 4 + k.len()) == Some(iq + 4 + k.len() + vlen),
        s[iq + 4 + k.len() + vlen] == ',',
        s[iq + 4 + k.len() + vlen + 1] == '\n',
        s[iq + 4 + k.len() + vlen + 2] == ' ',
        s[iq + 4 + k.len() + vlen + 3] == ' ',
        iq + 4 + k.len() + vlen + 4 <= s.len(),
        members_end(s, iq + 4 + k.len() + vlen + 4, false) == Some(end),
    ensures
        members_end(s, iq, first) == Some(end),
{
    let vpos = iq + 4 + k.len();
    let ve = vpos + vlen;
    lemma_value_start(s, vpos);
    lemma_members_start(s, ve + 4);
    lemma_string_scan(s, iq + 1, k);
    let ke = iq + 2 + k.len();
    lemma_ws_run(s, ke, ke);
    lemma_ws_run(s, ke + 1, vpos);
    lemma_ws_run(s, ve, ve);
    lemma_ws_run(s, ve + 1, ve + 4);
    assert(members_end(s, iq, first) == members_end(s, ve + 4, false));
}

/// The last member of an object: after its value come a newline and
/// the closing brace.
proof fn lemma_member_last(s: Seq<char>, iq: int, k: Seq<char>, vlen: int, first: bool)
    requires
        0 <= iq,
        s[iq] == '"',
        forall|t: int| 0 <= t < k.len() ==> s[iq + 1 + t] == #[trigger] k[t],
        safe_text(k),
        s[iq + 1 + k.len()] == '"',
        s[iq + 2 + k.len()] == ':',
        s[iq + 3 + k.len()] == ' ',
        vlen >= 1,
        value_end(s, iq + 4 + k.len()) == Some(iq + 4 + k.len() + vlen),
        s[iq + 4 + k.len() + vlen] == '\n',
        s[iq + 4 + k.len() + vlen + 1] == '}',
        iq + 4 + k.len() + vlen + 2 <= s.len(),
    ensures
        members_end(s, iq, first) == Some(iq + 4 + k.len() + vlen + 2),
{
    let vpos = iq + 4 + k.len();
    let ve = vpos + vlen;
    lemma_value_start(s, vpos);
    lemma_string_scan(s, iq + 1, k);
    let ke = iq + 2 + k.len();
    lemma_ws_run(s, ke, ke);
    lemma_ws_run(s, ke + 1, vpos);
    lemma_ws_run(s, ve, ve + 1);
}

/// A region that matches a concatenation matches both halves.
proof fn lemma_region_split(s: Seq<char>, i: int, a: Seq<char>, b: Seq<char>)
    requires
        0 <= i,
        forall|t: int| 0 <= t < (a + b).len() ==> s[i + t] == #[trigger] (a + b)[t],
    ensures
        forall|t: int| 0 <= t < a.len() ==> s[i + t] == #[trigger] a[t],
        forall|t: int| 0 <= t < b.len() ==> s[i + a.len() + t] == #[trigger] b[t],
{
    assert forall|t: int| 0 <= t < a.len() implies s[i + t] == #[trigger] a[t] by {
        assert((a + b)[t] == a[t]);
    }
    assert forall|t: int| 0 <= t < b.len() implies s[i + a.len() + t] == #[trigger] b[t] by {
        assert((a + b)[a.len() + t] == b[t]);
    }
}


proof fn lemma_safe_concat(a: Seq<char>, b: Seq<char>)
    requires
        safe_text(a),
        safe_text(b),
    ensures
        safe_text(a + b),
{
    assert forall|k: int|
        0 <= k < (a + b).len() implies (a + b)[k] != '"' && (a + b)[k] != '\\' by {
        if k < a.len() {
            assert((a + b)[k] == a[k]);
        } else {
            assert((a + b)[k] == b[k - a.len()]);
        }
    }
}

proof fn lemma_digit_char_is_digit(d: int)
    ensures
        is_json_digit(crate::text::digit_char(d)),
{
}

proof fn lemma_dec_of_safe(n: nat)
    ensures
        safe_text(dec_of(n)),
{
    lemma_dec_of_digits(n);
    assert forall|k: int|
        0 <= k < dec_of(n).len() implies dec_of(n)[k] != '"' && dec_of(n)[k] != '\\' by {
        lemma_digit_char_facts(dec_of(n)[k]);
    }
}

proof fn lemma_dec2_of_safe(n: int)
    ensures
        safe_text(crate::text::dec2_of(n)),
{
    let d = crate::text::dec2_of(n);
    lemma_digit_char_is_digit(n / 10);
    lemma_digit_char_is_digit(n % 10);
    assert forall|k: int| 0 <= k < d.len() implies d[k] != '"' && d[k] != '\\' by {
        lemma_digit_char_facts(d[k]);
    }
}

proof fn lemma_spaces_safe(n: int)
    ensures
        safe_text(crate::text::spaces(n)),
    decreases n,
{
    if n > 0 {
        lemma_spaces_safe(n - 1);
        let sp = crate::text::spaces(n);
        assert forall|k: int| 0 <= k < sp.len() implies sp[k] != '"' && sp[k] != '\\' by {
            if k < sp.len() - 1 {
                assert(sp[k] == crate::text::spaces(n - 1)[k]);
            }
        }
    }
}


proof fn lemma_rfc3339_safe(t: crate::time::Time)
    ensures
        safe_text(t.rfc3339_spec()),
{
    let (y, m, d) = t.civil_date_spec();
    let off = t.offset_spec() as int;
    let mag = if off < 0 { -off } else { off };
    lemma_dec_of_safe(y as nat);
    lemma_spaces_safe(4 - dec_of(y as nat).len());
    lemma_safe_concat(crate::text::spaces(4 - dec_of(y as nat).len()), dec_of(y as nat));
    lemma_dec2_of_safe(m);
    lemma_dec2_of_safe(d);
    lemma_dec2_of_safe(t.hour_spec());
    lemma_dec2_of_safe(t.minute_spec());
    lemma_dec2_of_safe(t.second_spec());
    lemma_dec2_of_safe(mag / 3600);
    lemma_dec2_of_safe((mag % 3600) / 60);
    let p1 = crate::text::pad_left_spec(dec_of(y as nat), 4);
    lemma_safe_concat(p1, seq!['-']);
    lemma_safe_concat(p1 + seq!['-'], crate::text::dec2_of(m));
    lemma_safe_concat(p1 + seq!['-'] + crate::text::dec2_of(m), seq!['-']);
    lemma_safe_concat(
        p1 + seq!['-'] + crate::text::dec2_of(m) + seq!['-'],
        crate::text::dec2_of(d),
    );
    let p2 = p1 + seq!['-'] + crate::text::dec2_of(m) + seq!['-'] + crate::text::dec2_of(d);
    lemma_safe_concat(p2, seq!['T']);
    lemma_safe_concat(p2 + seq!['T'], crate::text::dec2_of(t.hour_spec()));
    lemma_safe_concat(p2 + seq!['T'] + crate::text::dec2_of(t.hour_spec()), seq![':']);
    lemma_safe_concat(
        p2 + seq!['T'] + crate::text::dec2_of(t.hour_spec()) + seq![':'],
        crate::text::dec2_of(t.minute_spec()),
    );
    let p3 = p2 + seq!['T'] + crate::text::dec2_of(t.hour_spec()) + seq![':']
        + crate::text::dec2_of(t.minute_spec());
    lemma_safe_concat(p3, seq![':']);
    lemma_safe_concat(p3 + seq![':'], crate::text::dec2_of(t.second_spec()));
    let p4 = p3 + seq![':'] + crate::text::dec2_of(t.second_spec());
    lemma_safe_concat(p4, seq![if off < 0 { '-' } else { '+' }]);
    lemma_safe_concat(
        p4 + seq![if off < 0 { '-' } else { '+' }],
        crate::text::dec2_of(mag / 3600),
    );
    let p5 = p4 + seq![if off < 0 { '-' } else { '+' }] + crate::text::dec2_of(mag / 3600);
    lemma_safe_concat(p5, seq![':']);
    lemma_safe_concat(p5 + seq![':'], crate::text::dec2_of((mag % 3600) / 60));
}

/// One middle field of a record, taken from its rendered text.
proof fn lemma_field_mid(
    s: Seq<char>,
    o: int,
    k: Seq<char>,
    v: Seq<char>,
    end: int,
    first: bool,
)
    requires
        0 <= o,
        forall|t: int|
            0 <= t < field_spec(k, v, false).len() ==> s[o + t] == #[trigger] field_spec(
                k,
                v,
                false,
            )[t],
        safe_text(k),
        v.len() >= 1,
        value_end(s, o + 6 + k.len()) == Some(o + 6 + k.len() + v.len()),
        s[o + field_spec(k, v, false).len()] == ' ',
        s[o + field_spec(k, v, false).len() + 1] == ' ',
        o + field_spec(k, v, false).len() + 2 <= s.len(),
        members_end(s, o + field_spec(k, v, false).len() + 2, false) == Some(end),
    ensures
        members_end(s, o + 2, first) == Some(end),
{
    let f = field_spec(k, v, false);
    let sp3 = seq![' ', ' ', '"'];
    let m3 = seq!['"', ':', ' '];
    let p1 = sp3 + k;
    let p2 = p1 + m3;
    let p3 = p2 + v;
    let p4 = p3 + seq![','];
    assert(f == p4 + seq!['\n']);
    lemma_region_split(s, o, p4, seq!['\n']);
    lemma_region_split(s, o, p3, seq![',']);
    lemma_region_split(s, o, p2, v);
    lemma_region_split(s, o, p1, m3);
    lemma_region_split(s, o, sp3, k);
    assert(s[o + 2] == '"');
    assert forall|t: int| 0 <= t < k.len() implies s[o + 3 + t] == #[trigger] k[t] by {}
    assert(s[o + 3 + k.len()] == m3[0]);
    assert(s[o + 4 + k.len()] == m3[1]);
    assert(s[o + 5 + k.len()] == m3[2]);
    assert(p3.len() == 6 + k.len() + v.len());
    assert(s[o + p3.len()] == seq![','][0]);
    assert(s[o + 6 + k.len() + v.len()] == ',');
    assert(p4.len() == 7 + k.len() + v.len());
    assert(s[o + p4.len()] == seq!['\n'][0]);
    assert(s[o + 7 + k.len() + v.len()] == '\n');
    assert(f.len() == k.len() + v.len() + 8);
    lemma_member_mid(s, o + 2, k, v.len() as int, end, first);
}

/// The last field of a record, taken from its rendered text, with the
/// closing brace just after it.
proof fn lemma_field_last(s: Seq<char>, o: int, k: Seq<char>, v: Seq<char>, first: bool)
    requires
        0 <= o,
        forall|t: int|
            0 <= t < field_spec(k, v, true).len() ==> s[o + t] == #[trigger] field_spec(
                k,
                v,
                true,
            )[t],
        safe_text(k),
        v.len() >= 1,
        value_end(s, o + 6 + k.len()) == Some(o + 6 + k.len() + v.len()),
        s[o + field_spec(k, v, true).len()] == '}',
        o + field_spec(k, v, true).len() + 1 <= s.len(),
    ensures
        members_end(s, o + 2, first) == Some(o + field_spec(k, v, true).len() + 1),
{
    let f = field_spec(k, v, true);
    let sp3 = seq![' ', ' ', '"'];
    let m3 = seq!['"', ':', ' '];
    let p1 = sp3 + k;
    let p2 = p1 + m3;
    let p3 = p2 + v;
    let p4 = p3 + Seq::<char>::empty();
    assert(f == p4 + seq!['\n']);
    assert(p4 =~= p3);
    lemma_region_split(s, o, p3, seq!['\n']);
    lemma_region_split(s, o, p2, v);
    lemma_region_split(s, o, p1, m3);
    lemma_region_split(s, o, sp3, k);
    assert(s[o + 2] == '"');
    assert(s[o + 3 + k.len()] == m3[0]);
    assert(s[o + 4 + k.len()] == m3[1]);
    assert(s[o + 5 + k.len()] == m3[2]);
    assert(f.len() == k.len() + v.len() + 7);
    assert(p3.len() == 6 + k.len() + v.len());
    assert(s[o + p3.len()] == seq!['\n'][0]);
    assert(s[o + 6 + k.len() + v.len()] == '\n');
    lemma_member_last(s, o + 2, k, v.len() as int, first);
}



/// A quoted safe string region parses as one value.
proof fn lemma_quoted_value_at(s: Seq<char>, vpos: int, c: Seq<char>)
    requires
        0 <= vpos,
        vpos + quote_spec(c).len() <= s.len(),
        forall|t: int|
            0 <= t < quote_spec(c).len() ==> s[vpos + t] == #[trigger] quote_spec(c)[t],
        safe_text(c),
    ensures
        value_end(s, vpos) == Some(vpos + quote_spec(c).len()),
{
    let q1 = seq!['"'] + c;
    assert(quote_spec(c) == q1 + seq!['"']);
    lemma_region_split(s, vpos, q1, seq!['"']);
    lemma_region_split(s, vpos, seq!['"'], c);
    assert(s[vpos] == seq!['"'][0]);
    assert(q1.len() == 1 + c.len());
    assert(s[vpos + q1.len()] == seq!['"'][0]);
    lemma_value_string(s, vpos, c);
}

/// A field's first three characters are two spaces and a quote.
proof fn lemma_field_first_chars(k: Seq<char>, v: Seq<char>, is_last: bool)
    ensures
        field_spec(k, v, is_last).len() >= 3,
        field_spec(k, v, is_last)[0] == ' ',
        field_spec(k, v, is_last)[1] == ' ',
        field_spec(k, v, is_last)[2] == '"',
{
    let sp3 = seq![' ', ' ', '"'];
    let f = field_spec(k, v, is_last);
    assert(f[0] == sp3[0]);
    assert(f[1] == sp3[1]);
    assert(f[2] == sp3[2]);
}

/// Where a field's value sits, and what follows it.
proof fn lemma_field_value_region(s: Seq<char>, o: int, k: Seq<char>, v: Seq<char>, is_last: bool)
    requires
        0 <= o,
        forall|t: int|
            0 <= t < field_spec(k, v, is_last).len() ==> s[o + t] == #[trigger] field_spec(
                k,
                v,
                is_last,
            )[t],
    ensures
        forall|t: int| 0 <= t < v.len() ==> s[o + 6 + k.len() + t] == #[trigger] v[t],
        s[o + 6 + k.len() + v.len()] == (if is_last {
            '\n'
        } else {
            ','
        }),
{
    let sp3 = seq![' ', ' ', '"'];
    let m3 = seq!['"', ':', ' '];
    let sep = if is_last {
        Seq::<char>::empty()
    } else {
        seq![',']
    };
    let p1 = sp3 + k;
    let p2 = p1 + m3;
    let p3 = p2 + v;
    let p4 = p3 + sep;
    assert(field_spec(k, v, is_last) == p4 + seq!['\n']);
    lemma_region_split(s, o, p4, seq!['\n']);
    lemma_region_split(s, o, p3, sep);
    lemma_region_split(s, o, p2, v);
    assert(p2.len() == 6 + k.len());
    if is_last {
        assert(p4.len() == 6 + k.len() + v.len());
        assert(s[o + p4.len()] == seq!['\n'][0]);
    } else {
        assert(p3.len() == 6 + k.len() + v.len());
        assert(s[o + p3.len()] == seq![','][0]);
    }
}

/// The six head fields chain into the tail of the member list.
#[verifier::rlimit(100)]
proof fn lemma_head_members(
    s: Seq<char>,
    i: int,
    label: Seq<char>,
    name: Seq<char>,
    md: crate::files::MetaData,
    end: int,
)
    requires
        0 <= i,
        safe_text(label),
        safe_text(name),
        safe_text(md.mode_str@),
        forall|t: int|
            0 <= t < head_fields_spec(label, name, md).len() ==> s[i + t]
                == #[trigger] head_fields_spec(label, name, md)[t],
        s[i + head_fields_spec(label, name, md).len()] == ' ',
        s[i + head_fields_spec(label, name, md).len() + 1] == ' ',
        i + head_fields_spec(label, name, md).len() + 2 <= s.len(),
        members_end(s, i + head_fields_spec(label, name, md).len() + 2, false) == Some(end),
    ensures
        s[i] == '{',
        s[i + 1] == '\n',
        ws_end(s, i + 1) == i + 4,
        members_end(s, i + 4, true) == Some(end),
{
    reveal_strlit("{\n");
    reveal_strlit("type");
    reveal_strlit("name");
    reveal_strlit("size");
    reveal_strlit("mode");
    reveal_strlit("created_at");
    reveal_strlit("modified_at");
    let lab_q = quote_spec(label);
    let name_q = quote_spec(name);
    let size_v = dec_of(md.size as nat);
    let mode_q = quote_spec(md.mode_str@);
    let cre_q = quote_spec(md.created_at.rfc3339_spec());
    let mod_q = quote_spec(md.modified_at.rfc3339_spec());
    let f1 = field_spec("type"@, lab_q, false);
    let f2 = field_spec("name"@, name_q, false);
    let f3 = field_spec("size"@, size_v, false);
    let f4 = field_spec("mode"@, mode_q, false);
    let f5 = field_spec("created_at"@, cre_q, false);
    let f6 = field_spec("modified_at"@, mod_q, false);
    let h = head_fields_spec(label, name, md);
    let p0 = "{\n"@;
    let p1 = p0 + f1;
    let p2 = p1 + f2;
    let p3 = p2 + f3;
    let p4 = p3 + f4;
    let p5 = p4 + f5;
    assert(h == p5 + f6);
    lemma_region_split(s, i, p5, f6);
    lemma_region_split(s, i, p4, f5);
    lemma_region_split(s, i, p3, f4);
    lemma_region_split(s, i, p2, f3);
    lemma_region_split(s, i, p1, f2);
    lemma_region_split(s, i, p0, f1);
    let o1 = i + p0.len();
    let o2 = i + p1.len();
    let o3 = i + p2.len();
    let o4 = i + p3.len();
    let o5 = i + p4.len();
    let o6 = i + p5.len();
    lemma_safe_concat(label, label);
    lemma_rfc3339_safe(md.created_at);
    lemma_rfc3339_safe(md.modified_at);
    lemma_dec_of_digits(md.size as nat);
    // each value parses in place
    lemma_field_value_region(s, o1, "type"@, lab_q, false);
    lemma_quoted_value_at(s, o1 + 6 + 4, label);
    lemma_field_value_region(s, o2, "name"@, name_q, false);
    lemma_quoted_value_at(s, o2 + 6 + 4, name);
    lemma_field_value_region(s, o3, "size"@, size_v, false);
    lemma_value_number(s, o3 + 6 + 4, md.size as nat);
    lemma_field_value_region(s, o4, "mode"@, mode_q, false);
    lemma_quoted_value_at(s, o4 + 6 + 4, md.mode_str@);
    lemma_field_value_region(s, o5, "created_at"@, cre_q, false);
    lemma_quoted_value_at(s, o5 + 6 + 10, md.created_at.rfc3339_spec());
    lemma_field_value_region(s, o6, "modified_at"@, mod_q, false);
    lemma_quoted_value_at(s, o6 + 6 + 11, md.modified_at.rfc3339_spec());
    // each field sees the two leading spaces of the next
    lemma_field_first_chars("name"@, name_q, false);
    lemma_field_first_chars("size"@, size_v, false);
    lemma_field_first_chars("mode"@, mode_q, false);
    lemma_field_first_chars("created_at"@, cre_q, false);
    lemma_field_first_chars("modified_at"@, mod_q, false);
    assert(s[o2] == f2[0] && s[o2 + 1] == f2[1]);
    assert(s[o3] == f3[0] && s[o3 + 1] == f3[1]);
    assert(s[o4] == f4[0] && s[o4 + 1] == f4[1]);
    assert(s[o5] == f5[0] && s[o5 + 1] == f5[1]);
    assert(s[o6] == f6[0] && s[o6 + 1] == f6[1]);
    // chain the members from the last head field backwards
    lemma_field_mid(s, o6, "modified_at"@, mod_q, end, false);
    lemma_field_mid(s, o5, "created_at"@, cre_q, end, false);
    lemma_field_mid(s, o4, "mode"@, mode_q, end, false);
    lemma_field_mid(s, o3, "size"@, size_v, end, false);
    lemma_field_mid(s, o2, "name"@, name_q, end, false);
    lemma_field_mid(s, o1, "type"@, lab_q, end, true);
    // the opener: a brace, a newline, then the first field's two spaces
    assert(s[i] == p0[0]);
    assert(s[i + 1] == p0[1]);
    lemma_field_first_chars("type"@, lab_q, false);
    assert(s[o1] == f1[0] && s[o1 + 1] == f1[1] && s[o1 + 2] == f1[2]);
    lemma_ws_run(s, i + 1, i + 4);
}


/// Every record opens with a brace.
proof fn lemma_record_first(e: FileSystemEntry)
    ensures
        short_json_spec(e).len() >= 4,
        short_json_spec(e)[0] == '{',
{
    reveal_strlit("{\n");
    let j = short_json_spec(e);
    match e {
        FileSystemEntry::File { base_info, metadata, extension } => {
            let h = head_fields_spec("file"@, base_info.name@, metadata);
            assert(j[0] == h[0]);
            assert(h[0] == "{\n"@[0]);
        },
        FileSystemEntry::Directory { base_info, metadata, entries } => {
            let h = head_fields_spec("directory"@, base_info.name@, metadata);
            assert(j[0] == h[0]);
            assert(h[0] == "{\n"@[0]);
        },
        FileSystemEntry::Link { base_info, metadata, target } => {
            let h = head_fields_spec("link"@, base_info.name@, metadata);
            assert(j[0] == h[0]);
            assert(h[0] == "{\n"@[0]);
        },
    }
}

/// A shorter join is a prefix of a longer one.
proof fn lemma_ej_prefix(children: Seq<FileSystemEntry>, a: int, b: int)
    requires
        0 <= a <= b <= children.len(),
    ensures
        entries_json_spec(children, a).len() <= entries_json_spec(children, b).len(),
        forall|t: int|
            0 <= t < entries_json_spec(children, a).len() ==> #[trigger] entries_json_spec(
                children,
                b,
            )[t] == entries_json_spec(children, a)[t],
    decreases b - a,
{
    if a < b {
        lemma_ej_prefix(children, a, b - 1);
    }
}

/// Every entry of a safe prefix is safe.
proof fn lemma_safe_children_index(children: Seq<FileSystemEntry>, n: int, k: int)
    requires
        json_safe_children(children, n),
        0 <= k < n <= children.len(),
    ensures
        json_safe_entry(children[k]),
    decreases n,
{
    if k < n - 1 {
        lemma_safe_children_index(children, n - 1, k);
    }
}

/// Where one element's record sits inside the rendered join, with the
/// separator that precedes it.
#[verifier::rlimit(100)]
proof fn lemma_ej_element_region(s: Seq<char>, base: int, children: Seq<FileSystemEntry>, k: int)
    requires
        0 <= base,
        0 <= k < children.len(),
        forall|t: int|
            0 <= t < entries_json_spec(children, children.len() as int).len() ==> s[base + t]
                == #[trigger] entries_json_spec(children, children.len() as int)[t],
    ensures
        forall|t: int|
            0 <= t < short_json_spec(children[k]).len() ==> s[base + entries_json_spec(
                children,
                k,
            ).len() + (if k > 0 {
                2int
            } else {
                0int
            }) + t] == #[trigger] short_json_spec(children[k])[t],
        entries_json_spec(children, k).len() + (if k > 0 {
            2int
        } else {
            0int
        }) + short_json_spec(children[k]).len() == entries_json_spec(children, k + 1).len(),
        entries_json_spec(children, k + 1).len() <= entries_json_spec(
            children,
            children.len() as int,
        ).len(),
        entries_json_spec(children, k).len() <= entries_json_spec(children, k + 1).len(),
        k > 0 ==> s[base + entries_json_spec(children, k).len()] == ',' && s[base
            + entries_json_spec(children, k).len() + 1] == '\n',
{
    reveal_strlit(",\n");
    let n = children.len() as int;
    let ejn = entries_json_spec(children, n);
    let jk = short_json_spec(children[k]);
    let sepk: int = if k > 0 { 2 } else { 0 };
    let offk = entries_json_spec(children, k).len() as int;
    lemma_ej_prefix(children, k + 1, n);
    lemma_ej_prefix(children, k, k + 1);
    assert(entries_json_spec(children, k + 1) == if k == 0 {
        jk
    } else {
        entries_json_spec(children, k) + ",\n"@ + jk
    });
    assert forall|t: int|
        0 <= t < jk.len() implies s[base + offk + sepk + t] == #[trigger] jk[t] by {
        let rel = offk + sepk + t;
        assert(entries_json_spec(children, k + 1)[rel] == jk[t]);
        assert(ejn[rel] == entries_json_spec(children, k + 1)[rel]);
        assert(s[base + rel] == ejn[rel]);
    }
    if k > 0 {
        assert(entries_json_spec(children, k + 1)[offk] == ",\n"@[0]);
        assert(entries_json_spec(children, k + 1)[offk + 1] == ",\n"@[1]);
        assert(ejn[offk] == entries_json_spec(children, k + 1)[offk]);
        assert(ejn[offk + 1] == entries_json_spec(children, k + 1)[offk + 1]);
        assert(s[base + offk] == ejn[offk]);
        assert(s[base + offk + 1] == ejn[offk + 1]);
    }
}

/// An element list can only continue at a value character.
proof fn lemma_elements_start(s: Seq<char>, i: int)
    requires
        elements_end(s, i, false) is Some,
    ensures
        0 <= i < s.len(),
        !is_json_ws(s[i]),
{
    if 0 <= i < s.len() && !(s[i] == ']') {
        if value_end(s, i) is Some {
            lemma_value_start(s, i);
        }
    }
}

/// A middle element: its value, a comma, a newline, then the rest.
proof fn lemma_element_mid(s: Seq<char>, p: int, vlen: int, end: int, flag: bool)
    requires
        0 <= p,
        s[p] == '{',
        vlen >= 1,
        value_end(s, p) == Some(p + vlen),
        s[p + vlen] == ',',
        s[p + vlen + 1] == '\n',
        p + vlen + 2 <= s.len(),
        elements_end(s, p + vlen + 2, false) == Some(end),
    ensures
        elements_end(s, p, flag) == Some(end),
{
    lemma_value_start(s, p);
    lemma_elements_start(s, p + vlen + 2);
    lemma_ws_run(s, p + vlen, p + vlen);
    lemma_ws_run(s, p + vlen + 1, p + vlen + 2);
    assert(elements_end(s, p, flag) == elements_end(s, p + vlen + 2, false));
}

/// The last element: its value, a newline, the closing bracket.
proof fn lemma_element_last(s: Seq<char>, p: int, vlen: int, flag: bool)
    requires
        0 <= p,
        s[p] == '{',
        vlen >= 1,
        value_end(s, p) == Some(p + vlen),
        s[p + vlen] == '\n',
        s[p + vlen + 1] == ']',
        p + vlen + 2 <= s.len(),
    ensures
        elements_end(s, p, flag) == Some(p + vlen + 2),
{
    lemma_value_start(s, p);
    lemma_ws_run(s, p + vlen, p + vlen + 1);
}

/// One element of the rendered array and everything after it parse,
/// ending just past the closing bracket.
#[verifier::rlimit(100)]
proof fn lemma_children_parse(
    s: Seq<char>,
    base: int,
    children: Seq<FileSystemEntry>,
    k: int,
    flag: bool,
)
    requires
        0 <= base,
        0 <= k < children.len(),
        json_safe_children(children, children.len() as int),
        forall|t: int|
            0 <= t < entries_json_spec(children, children.len() as int).len() ==> s[base + t]
                == #[trigger] entries_json_spec(children, children.len() as int)[t],
        s[base + entries_json_spec(children, children.len() as int).len()] == '\n',
        s[base + entries_json_spec(children, children.len() as int).len() + 1] == ']',
        base + entries_json_spec(children, children.len() as int).len() + 2 <= s.len(),
    ensures
        elements_end(
            s,
            base + entries_json_spec(children, k).len() + (if k > 0 {
                2int
            } else {
                0int
            }),
            flag,
        ) == Some(base + entries_json_spec(children, children.len() as int).len() + 2),
    decreases children, 0int, children.len() - k,
{
    let n = children.len() as int;
    let ejn = entries_json_spec(children, n);
    let jk = short_json_spec(children[k]);
    let sepk: int = if k > 0 { 2 } else { 0 };
    let startk = base + entries_json_spec(children, k).len() + sepk;
    lemma_safe_children_index(children, n, k);
    lemma_record_first(children[k]);
    lemma_ej_element_region(s, base, children, k);
    assert forall|t: int| 0 <= t < jk.len() implies s[startk + t] == #[trigger] jk[t] by {}
    lemma_record_parses(s, startk, children[k]);
    let ve = startk + jk.len();
    assert(ve == base + entries_json_spec(children, k + 1).len());
    assert(s[startk] == jk[0]);
    if k + 1 < n {
        lemma_ej_element_region(s, base, children, k + 1);
        assert(s[ve] == ',');
        assert(s[ve + 1] == '\n');
        lemma_children_parse(s, base, children, k + 1, false);
        lemma_element_mid(s, startk, jk.len() as int, base + ejn.len() + 2, flag);
    } else {
        assert(ve == base + ejn.len());
        lemma_element_last(s, startk, jk.len() as int, flag);
    }
}

/// A record's rendered text parses as exactly one JSON value.
proof fn lemma_record_parses(s: Seq<char>, i: int, e: FileSystemEntry)
    requires
        json_safe_entry(e),
        0 <= i,
        i + short_json_spec(e).len() <= s.len(),
        forall|t: int|
            0 <= t < short_json_spec(e).len() ==> s[i + t] == #[trigger] short_json_spec(e)[t],
    ensures
        value_end(s, i) == Some(i + short_json_spec(e).len()),
    decreases e, 2int, 0int,
{
    match e {
        FileSystemEntry::File { .. } => lemma_record_parses_file(s, i, e),
        FileSystemEntry::Link { .. } => lemma_record_parses_link(s, i, e),
        FileSystemEntry::Directory { .. } => lemma_record_parses_dir(s, i, e),
    }
}

#[verifier::rlimit(100)]
proof fn lemma_record_parses_file(s: Seq<char>, i: int, e: FileSystemEntry)
    requires
        e is File,
        json_safe_entry(e),
        0 <= i,
        i + short_json_spec(e).len() <= s.len(),
        forall|t: int|
            0 <= t < short_json_spec(e).len() ==> s[i + t] == #[trigger] short_json_spec(e)[t],
    ensures
        value_end(s, i) == Some(i + short_json_spec(e).len()),
{
    reveal_strlit("}");
    reveal_strlit("extension");
    reveal_strlit("file");
    reveal_strlit("null");
    let j = short_json_spec(e);
    match e {
        FileSystemEntry::File { base_info, metadata, extension } => {
            let h = head_fields_spec("file"@, base_info.name@, metadata);
            let c = match extension {
                Option::Some(x) => x@,
                Option::None => "null"@,
            };
            let v = quote_spec(c);
            let fl = field_spec("extension"@, v, true);
            assert(j == (h + fl) + "}"@);
            lemma_region_split(s, i, h + fl, "}"@);
            lemma_region_split(s, i, h, fl);
            let ol = i + h.len();
            lemma_field_value_region(s, ol, "extension"@, v, true);
            lemma_quoted_value_at(s, ol + 6 + 9, c);
            assert(s[i + (h + fl).len()] == "}"@[0]);
            lemma_field_last(s, ol, "extension"@, v, false);
            lemma_field_first_chars("extension"@, v, true);
            assert(s[ol] == fl[0] && s[ol + 1] == fl[1]);
            lemma_head_members(s, i, "file"@, base_info.name@, metadata, i + j.len());
        },
        _ => {},
    }
}

#[verifier::rlimit(100)]
proof fn lemma_record_parses_link(s: Seq<char>, i: int, e: FileSystemEntry)
    requires
        e is Link,
        json_safe_entry(e),
        0 <= i,
        i + short_json_spec(e).len() <= s.len(),
        forall|t: int|
            0 <= t < short_json_spec(e).len() ==> s[i + t] == #[trigger] short_json_spec(e)[t],
    ensures
        value_end(s, i) == Some(i + short_json_spec(e).len()),
{
    reveal_strlit("}");
    reveal_strlit("target");
    reveal_strlit("link");
    let j = short_json_spec(e);
    match e {
        FileSystemEntry::Link { base_info, metadata, target } => {
            let h = head_fields_spec("link"@, base_info.name@, metadata);
            let v = quote_spec(target@);
            let fl = field_spec("target"@, v, true);
            assert(j == (h + fl) + "}"@);
            lemma_region_split(s, i, h + fl, "}"@);
            lemma_region_split(s, i, h, fl);
            let ol = i + h.len();
            lemma_field_value_region(s, ol, "target"@, v, true);
            lemma_quoted_value_at(s, ol + 6 + 6, target@);
            assert(s[i + (h + fl).len()] == "}"@[0]);
            lemma_field_last(s, ol, "target"@, v, false);
            lemma_field_first_chars("target"@, v, true);
            assert(s[ol] == fl[0] && s[ol + 1] == fl[1]);
            lemma_head_members(s, i, "link"@, base_info.name@, metadata, i + j.len());
        },
        _ => {},
    }
}

/// The rendered entries array parses as one value.
#[verifier::rlimit(100)]
proof fn lemma_array_value(s: Seq<char>, vpos: int, children: Seq<FileSystemEntry>)
    requires
        0 <= vpos,
        json_safe_children(children, children.len() as int),
        vpos + entries_json_spec(children, children.len() as int).len() + 4 <= s.len(),
        forall|t: int|
            0 <= t < ("[\n"@ + entries_json_spec(children, children.len() as int)
                + "\n]"@).len() ==> s[vpos + t] == #[trigger] ("[\n"@ + entries_json_spec(
                children,
                children.len() as int,
            ) + "\n]"@)[t],
    ensures
        value_end(s, vpos) == Some(
            vpos + ("[\n"@ + entries_json_spec(children, children.len() as int) + "\n]"@).len(),
        ),
    decreases children, 1int, 0int,
{
    reveal_strlit("[\n");
    reveal_strlit("\n]");
    let n = children.len() as int;
    let ejn = entries_json_spec(children, n);
    let v = "[\n"@ + ejn + "\n]"@;
    lemma_region_split(s, vpos, "[\n"@ + ejn, "\n]"@);
    lemma_region_split(s, vpos, "[\n"@, ejn);
    assert(s[vpos] == "[\n"@[0]);
    assert(s[vpos + 1] == "[\n"@[1]);
    let abase = vpos + 2;
    assert(s[abase + ejn.len()] == "\n]"@[0]);
    assert(s[abase + ejn.len() + 1] == "\n]"@[1]);
    if n == 0 {
        assert(ejn == Seq::<char>::empty());
        lemma_ws_run(s, vpos + 1, vpos + 3);
        assert(elements_end(s, vpos + 3, true) == Some(vpos + 4));
        assert(value_end(s, vpos) == Some(vpos + v.len()));
    } else {
        lemma_record_first(children[0]);
        lemma_ej_prefix(children, 1, n);
        assert(entries_json_spec(children, 1) == short_json_spec(children[0]));
        assert(ejn[0] == short_json_spec(children[0])[0]);
        assert(s[abase] == '{');
        lemma_ws_run(s, vpos + 1, abase);
        assert(entries_json_spec(children, 0).len() == 0);
        lemma_children_parse(s, abase, children, 0, true);
        assert(elements_end(s, abase, true) == Some(abase + ejn.len() + 2));
        assert(value_end(s, vpos) == Some(vpos + v.len()));
    }
}

#[verifier::rlimit(100)]
proof fn lemma_record_parses_dir(s: Seq<char>, i: int, e: FileSystemEntry)
    requires
        e is Directory,
        json_safe_entry(e),
        0 <= i,
        i + short_json_spec(e).len() <= s.len(),
        forall|t: int|
            0 <= t < short_json_spec(e).len() ==> s[i + t] == #[trigger] short_json_spec(e)[t],
    ensures
        value_end(s, i) == Some(i + short_json_spec(e).len()),
    decreases e, 1int, 0int,
{
    reveal_strlit("}");
    reveal_strlit("entries");
    reveal_strlit("directory");
    let j = short_json_spec(e);
    match e {
        FileSystemEntry::Directory { base_info, metadata, entries } => {
            let h = head_fields_spec("directory"@, base_info.name@, metadata);
            let n = entries@.len() as int;
            let ejn = entries_json_spec(entries@, n);
            let v = "[\n"@ + ejn + "\n]"@;
            let fl = field_spec("entries"@, v, true);
            assert(j == (h + fl) + "}"@);
            lemma_region_split(s, i, h + fl, "}"@);
            lemma_region_split(s, i, h, fl);
            let ol = i + h.len();
            lemma_field_value_region(s, ol, "entries"@, v, true);
            let vpos = ol + 6 + 7;
            assert(v.len() == ejn.len() + 4) by {
                reveal_strlit("[\n");
                reveal_strlit("\n]");
            }
            lemma_array_value(s, vpos, entries@);
            assert(s[i + (h + fl).len()] == "}"@[0]);
            lemma_field_last(s, ol, "entries"@, v, false);
            lemma_field_first_chars("entries"@, v, true);
            assert(s[ol] == fl[0] && s[ol + 1] == fl[1]);
            lemma_head_members(s, i, "directory"@, base_info.name@, metadata, i + j.len());
        },
        _ => {},
    }
}

/// Law: every record the formatter emits for a non-pathological entry
/// — one whose names, extensions, targets and mode strings hold no
/// quote or backslash — is syntactically valid JSON.
pub proof fn lemma_short_json_valid(e: FileSystemEntry)
    requires
        json_safe_entry(e),
    ensures
        valid_json_spec(short_json_spec(e)),
{
    let j = short_json_spec(e);
    assert forall|t: int| 0 <= t < j.len() implies j[0 + t] == #[trigger] j[t] by {}
    lemma_record_parses(j, 0, e);
    lemma_record_first(e);
    lemma_ws_run(j, 0, 0);
    assert(ws_end(j, j.len() as int) == j.len());
}

} // verus!
