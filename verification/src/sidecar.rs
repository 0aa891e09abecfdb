//! The `.0` sidecar: its nine fields, their text form, and the reader.

use vstd::prelude::*;
use crate::decimal::{
    spec_decimal, spec_parse_u64, push_decimal, parse_decimal, IntErrorKind, law_parse_decimal,
    lemma_decimal_roundtrip, is_dec_digit, scan_decimal, dec_digit_value,
};
use crate::text::{chars_of, push_char};

verus! {

/// The nine `.0` values of a node, in file order.
#[derive(Debug, Clone, PartialEq, Eq)]
pub struct Sidecar {
    pub last_file: String,
    pub last_dir: String,
    pub extra_files: u64,
    pub extra_dirs: u64,
    pub missing_files: u64,
    pub missing_dirs: u64,
    pub total_files: u64,
    pub total_dirs: u64,
    pub total_bytes: u64,
}

/// A sidecar as plain values.
pub struct SidecarView {
    pub last_file: Seq<char>,
    pub last_dir: Seq<char>,
    pub extra_files: u64,
    pub extra_dirs: u64,
    pub missing_files: u64,
    pub missing_dirs: u64,
    pub total_files: u64,
    pub total_dirs: u64,
    pub total_bytes: u64,
}

impl View for Sidecar {
    type V = SidecarView;

    open spec fn view(&self) -> SidecarView {
        SidecarView {
            last_file: self.last_file@,
            last_dir: self.last_dir@,
            extra_files: self.extra_files,
            extra_dirs: self.extra_dirs,
            missing_files: self.missing_files,
            missing_dirs: self.missing_dirs,
            total_files: self.total_files,
            total_dirs: self.total_dirs,
            total_bytes: self.total_bytes,
        }
    }
}

/// `s` followed by a line feed.
pub open spec fn line(s: Seq<char>) -> Seq<char> {
    s.push('\n')
}

/// The text of a sidecar: the nine fields in order, each on its own
/// newline-terminated line, counts in decimal.
pub open spec fn spec_serialize(v: SidecarView) -> Seq<char> {
    line(v.last_file) + line(v.last_dir) + line(spec_decimal(v.extra_files as nat)) + line(
        spec_decimal(v.extra_dirs as nat),
    ) + line(spec_decimal(v.missing_files as nat)) + line(spec_decimal(v.missing_dirs as nat))
        + line(spec_decimal(v.total_files as nat)) + line(spec_decimal(v.total_dirs as nat)) + line(
        spec_decimal(v.total_bytes as nat),
    )
}

/// The pieces of `s` between line feeds (`str::split('\n')`): one more piece
/// than there are line feeds.
pub open spec fn split_lines(s: Seq<char>) -> Seq<Seq<char>>
    decreases s.len(),
{
    if s.len() == 0 {
        seq![Seq::<char>::empty()]
    } else {
        let init = split_lines(s.drop_last());
        if s.last() == '\n' {
            init.push(Seq::<char>::empty())
        } else {
            init.update(init.len() - 1, init.last().push(s.last()))
        }
    }
}

/// Name of the count on line `i` (2 to 8) of a sidecar.
pub open spec fn count_field_name(i: int) -> Seq<char> {
    if i == 2 {
        "extra_files"@
    } else if i == 3 {
        "extra_dirs"@
    } else if i == 4 {
        "missing_files"@
    } else if i == 5 {
        "missing_dirs"@
    } else if i == 6 {
        "total_files"@
    } else if i == 7 {
        "total_dirs"@
    } else {
        "total_bytes"@
    }
}

/// The first line from `i` on (up to 8) that is not a decimal `u64`, or 9.
pub open spec fn first_bad_count(lines: Seq<Seq<char>>, i: int) -> int
    decreases 9 - i,
{
    if i >= 9 {
        9
    } else if spec_parse_u64(lines[i]) is Err {
        i
    } else {
        first_bad_count(lines, i + 1)
    }
}

/// The value of a line known to hold a decimal `u64`.
pub open spec fn count_value(l: Seq<char>) -> u64 {
    match spec_parse_u64(l) {
        Ok(v) => v as u64,
        Err(_) => 0,
    }
}

/// The message for a count that is not a decimal integer.
pub open spec fn not_decimal_message(field: Seq<char>) -> Seq<char> {
    field + " is not a decimal integer"@
}

/// What the sidecar reader gives for `input`.
pub open spec fn spec_parse(input: Seq<char>) -> Result<SidecarView, Seq<char>> {
    if input.len() == 0 || input.last() != '\n' {
        Err("sidecar must be newline-terminated"@)
    } else {
        let lines = split_lines(input.drop_last());
        if lines.len() != 9 {
            Err("sidecar has "@ + spec_decimal(lines.len()) + " lines, expected 9"@)
        } else if first_bad_count(lines, 2) < 9 {
            Err(not_decimal_message(count_field_name(first_bad_count(lines, 2))))
        } else {
            Ok(
                SidecarView {
                    last_file: lines[0],
                    last_dir: lines[1],
                    extra_files: count_value(lines[2]),
                    extra_dirs: count_value(lines[3]),
                    missing_files: count_value(lines[4]),
                    missing_dirs: count_value(lines[5]),
                    total_files: count_value(lines[6]),
                    total_dirs: count_value(lines[7]),
                    total_bytes: count_value(lines[8]),
                },
            )
        }
    }
}

fn push_line(out: &mut String, s: &str)
    ensures
        final(out)@ == old(out)@ + line(s@),
{
    out.append(s);
    push_char(out, '\n');
    assert(final(out)@ =~= old(out)@ + line(s@));
}

fn push_count_line(out: &mut String, n: u64)
    ensures
        final(out)@ == old(out)@ + line(spec_decimal(n as nat)),
{
    push_decimal(out, n);
    push_char(out, '\n');
    assert(final(out)@ =~= old(out)@ + line(spec_decimal(n as nat)));
}

/// Parses a count line; the error names the field.
fn parse_u64(s: &str, field: &str) -> (r: Result<u64, String>)
    ensures
        r is Ok <==> spec_parse_u64(s@) is Ok,
        r matches Ok(v) ==> spec_parse_u64(s@) == Ok::<nat, IntErrorKind>(v as nat),
        r matches Err(m) ==> m@ == not_decimal_message(field@),
{
    match parse_decimal(s) {
        Ok(v) => Ok(v),
        Err(_) => {
            let mut m = String::new();
            m.append(field);
            m.append(" is not a decimal integer");
            assert(m@ =~= not_decimal_message(field@));
            Err(m)
        },
    }
}

fn string_of(s: &str) -> (r: String)
    ensures
        r@ == s@,
{
    let mut out = String::new();
    out.append(s);
    assert(out@ =~= s@);
    out
}

/// Splits `chars[..end]` at line feeds.
fn split_lines_exec(chars: &Vec<char>, end: usize) -> (r: Vec<String>)
    requires
        end <= chars.len(),
    ensures
        r@.map_values(|l: String| l@) == split_lines(chars@.take(end as int)),
{
    let mut lines: Vec<String> = Vec::new();
    let mut cur = String::new();
    let mut i: usize = 0;
    assert(chars@.take(0) =~= Seq::<char>::empty());
    assert(lines@.map_values(|l: String| l@).push(cur@) =~= split_lines(chars@.take(0)));
    while i < end
        invariant
            i <= end <= chars.len(),
            lines@.map_values(|l: String| l@).push(cur@) == split_lines(chars@.take(i as int)),
        decreases end - i,
    {
        let c = chars[i];
        let ghost before = lines@.map_values(|l: String| l@).push(cur@);
        assert(chars@.take(i + 1).drop_last() =~= chars@.take(i as int));
        assert(chars@.take(i + 1).last() == c);
        if c == '\n' {
            lines.push(cur);
            cur = String::new();
            assert(lines@.map_values(|l: String| l@).push(cur@) =~= before.push(
                Seq::<char>::empty(),
            ));
        } else {
            push_char(&mut cur, c);
            assert(lines@.map_values(|l: String| l@).push(cur@) =~= before.update(
                before.len() - 1,
                before.last().push(c),
            ));
        }
        i = i + 1;
    }
    lines.push(cur);
    assert(lines@.map_values(|l: String| l@) =~= split_lines(chars@.take(end as int)));
    lines
}

impl Sidecar {
    /// The `.0` text: nine newline-terminated lines in field order.
    pub fn serialize(&self) -> (r: String)
        ensures
            r@ == spec_serialize(self@),
    {
        let mut out = String::new();
        push_line(&mut out, self.last_file.as_str());
        push_line(&mut out, self.last_dir.as_str());
        push_count_line(&mut out, self.extra_files);
        push_count_line(&mut out, self.extra_dirs);
        push_count_line(&mut out, self.missing_files);
        push_count_line(&mut out, self.missing_dirs);
        push_count_line(&mut out, self.total_files);
        push_count_line(&mut out, self.total_dirs);
        push_count_line(&mut out, self.total_bytes);
        assert(out@ =~= spec_serialize(self@));
        out
    }
}


impl Sidecar {
    /// Reads `.0` text. It must end in a line feed and hold exactly nine lines;
    /// lines 3 to 9 must be decimal `u64`s. The error says which rule failed.
    pub fn parse(input: &str) -> (r: Result<Self, String>)
        ensures
            r is Ok <==> spec_parse(input@) is Ok,
            r matches Ok(v) ==> spec_parse(input@) == Ok::<SidecarView, Seq<char>>(v@),
            r matches Err(m) ==> spec_parse(input@) == Err::<SidecarView, Seq<char>>(m@),
    {
        let chars = chars_of(input);
        let n = chars.len();
        if n == 0 || chars[n - 1] != '\n' {
            return Err(string_of("sidecar must be newline-terminated"));
        }
        let lines = split_lines_exec(&chars, n - 1);
        let ghost lv = lines@.map_values(|l: String| l@);
        assert(chars@.take(n - 1) =~= input@.drop_last());
        if lines.len() != 9 {
            let mut m = String::new();
            m.append("sidecar has ");
            push_decimal(&mut m, lines.len() as u64);
            m.append(" lines, expected 9");
            assert(m@ =~= "sidecar has "@ + spec_decimal(lv.len()) + " lines, expected 9"@);
            return Err(m);
        }
        proof {
            reveal_with_fuel(first_bad_count, 8);
            assert(lv[2] == lines@[2]@ && lv[3] == lines@[3]@ && lv[4] == lines@[4]@);
            assert(lv[5] == lines@[5]@ && lv[6] == lines@[6]@ && lv[7] == lines@[7]@);
            assert(lv[8] == lines@[8]@ && lv[0] == lines@[0]@ && lv[1] == lines@[1]@);
        }
        let extra_files = match parse_u64(lines[2].as_str(), "extra_files") {
            Ok(v) => v,
            Err(m) => {
                return Err(m);
            },
        };
        let extra_dirs = match parse_u64(lines[3].as_str(), "extra_dirs") {
            Ok(v) => v,
            Err(m) => {
                return Err(m);
            },
        };
        let missing_files = match parse_u64(lines[4].as_str(), "missing_files") {
            Ok(v) => v,
            Err(m) => {
                return Err(m);
            },
        };
        let missing_dirs = match parse_u64(lines[5].as_str(), "missing_dirs") {
            Ok(v) => v,
            Err(m) => {
                return Err(m);
            },
        };
        let total_files = match parse_u64(lines[6].as_str(), "total_files") {
            Ok(v) => v,
            Err(m) => {
                return Err(m);
            },
        };
        let total_dirs = match parse_u64(lines[7].as_str(), "total_dirs") {
            Ok(v) => v,
            Err(m) => {
                return Err(m);
            },
        };
        let total_bytes = match parse_u64(lines[8].as_str(), "total_bytes") {
            Ok(v) => v,
            Err(m) => {
                return Err(m);
            },
        };
        Ok(
            Sidecar {
                last_file: lines[0].clone(),
                last_dir: lines[1].clone(),
                extra_files,
                extra_dirs,
                missing_files,
                missing_dirs,
                total_files,
                total_dirs,
                total_bytes,
            },
        )
    }
}


/// `s` holds no line feed.
pub open spec fn no_newline(s: Seq<char>) -> bool {
    forall|i: int| 0 <= i < s.len() ==> s[i] != '\n'
}

/// Lines joined by line feeds (at least one line).
pub open spec fn join_lines(ls: Seq<Seq<char>>) -> Seq<char>
    decreases ls.len(),
{
    if ls.len() <= 1 {
        if ls.len() == 1 {
            ls[0]
        } else {
            Seq::<char>::empty()
        }
    } else {
        join_lines(ls.drop_last()) + seq!['\n'] + ls.last()
    }
}

proof fn lemma_split_no_newline(y: Seq<char>)
    requires
        no_newline(y),
    ensures
        split_lines(y) == seq![y],
    decreases y.len(),
{
    if y.len() > 0 {
        assert(no_newline(y.drop_last()));
        assert(y[y.len() - 1] != '\n');
        lemma_split_no_newline(y.drop_last());
        assert(y.drop_last().push(y.last()) =~= y);
        assert(split_lines(y) =~= seq![y]);
    } else {
        assert(y =~= Seq::<char>::empty());
    }
}

proof fn lemma_split_concat(x: Seq<char>, y: Seq<char>)
    ensures
        split_lines(x + seq!['\n'] + y) == split_lines(x) + split_lines(y),
    decreases y.len(),
{
    let xy = x + seq!['\n'] + y;
    if y.len() == 0 {
        assert(xy.drop_last() =~= x);
        assert(split_lines(xy) =~= split_lines(x) + split_lines(y));
    } else {
        lemma_split_concat(x, y.drop_last());
        assert(xy.drop_last() =~= x + seq!['\n'] + y.drop_last());
        assert(xy.last() == y.last());
        lemma_split_nonempty(y.drop_last());
        lemma_split_nonempty(x);
        assert(split_lines(xy) =~= split_lines(x) + split_lines(y));
    }
}

proof fn lemma_split_nonempty(x: Seq<char>)
    ensures
        split_lines(x).len() >= 1,
    decreases x.len(),
{
    if x.len() > 0 {
        lemma_split_nonempty(x.drop_last());
    }
}

proof fn lemma_split_join(ls: Seq<Seq<char>>)
    requires
        ls.len() >= 1,
        forall|i: int| 0 <= i < ls.len() ==> no_newline(#[trigger] ls[i]),
    ensures
        split_lines(join_lines(ls)) == ls,
    decreases ls.len(),
{
    if ls.len() == 1 {
        lemma_split_no_newline(ls[0]);
        assert(split_lines(join_lines(ls)) =~= ls);
    } else {
        let init = ls.drop_last();
        assert forall|i: int| 0 <= i < init.len() implies no_newline(#[trigger] init[i]) by {
            assert(init[i] == ls[i]);
        }
        lemma_split_join(init);
        lemma_split_concat(join_lines(init), ls.last());
        lemma_split_no_newline(ls.last());
        assert(split_lines(join_lines(ls)) =~= ls);
    }
}

proof fn lemma_decimal_no_newline(n: nat)
    requires
        n <= u64::MAX,
    ensures
        no_newline(spec_decimal(n)),
{
    lemma_decimal_roundtrip(n);
    assert forall|i: int| 0 <= i < spec_decimal(n).len() implies spec_decimal(n)[i] != '\n' by {
        assert(is_dec_digit(spec_decimal(n)[i]));
    }
}

/// Law (sidecar round trip): reading the text that `serialize` writes gives
/// back the same nine values, provided neither index field holds a line feed.
pub proof fn law_parse_serialize(v: SidecarView)
    requires
        no_newline(v.last_file),
        no_newline(v.last_dir),
    ensures
        spec_parse(spec_serialize(v)) == Ok::<SidecarView, Seq<char>>(v),
{
    let d2 = spec_decimal(v.extra_files as nat);
    let d3 = spec_decimal(v.extra_dirs as nat);
    let d4 = spec_decimal(v.missing_files as nat);
    let d5 = spec_decimal(v.missing_dirs as nat);
    let d6 = spec_decimal(v.total_files as nat);
    let d7 = spec_decimal(v.total_dirs as nat);
    let d8 = spec_decimal(v.total_bytes as nat);
    let ls = seq![v.last_file, v.last_dir, d2, d3, d4, d5, d6, d7, d8];
    let text = spec_serialize(v);
    reveal_with_fuel(join_lines, 10);
    assert(text.drop_last() =~= join_lines(ls));
    assert(text.last() == '\n');
    lemma_decimal_no_newline(v.extra_files as nat);
    lemma_decimal_no_newline(v.extra_dirs as nat);
    lemma_decimal_no_newline(v.missing_files as nat);
    lemma_decimal_no_newline(v.missing_dirs as nat);
    lemma_decimal_no_newline(v.total_files as nat);
    lemma_decimal_no_newline(v.total_dirs as nat);
    lemma_decimal_no_newline(v.total_bytes as nat);
    assert forall|i: int| 0 <= i < ls.len() implies no_newline(#[trigger] ls[i]) by {}
    lemma_split_join(ls);
    law_parse_decimal(v.extra_files);
    law_parse_decimal(v.extra_dirs);
    law_parse_decimal(v.missing_files);
    law_parse_decimal(v.missing_dirs);
    law_parse_decimal(v.total_files);
    law_parse_decimal(v.total_dirs);
    law_parse_decimal(v.total_bytes);
    reveal_with_fuel(first_bad_count, 8);
    let lines = split_lines(text.drop_last());
    assert(lines == ls);
    assert(first_bad_count(lines, 2) == 9);
}

/// Law (the sidecar text, line by line): the text written for some values
/// ends in a line feed and holds nine lines: the last file index, the last
/// directory index, then extra_files, extra_dirs, missing_files,
/// missing_dirs, total_files, total_dirs and total_bytes in decimal, each
/// reading back as its value; provided neither index holds a line feed.
pub proof fn law_serialize_lines(v: SidecarView)
    requires
        no_newline(v.last_file),
        no_newline(v.last_dir),
    ensures
        spec_serialize(v).len() > 0,
        spec_serialize(v).last() == '\n',
        ({
            let ls = split_lines(spec_serialize(v).drop_last());
            &&& ls.len() == 9
            &&& ls[0] == v.last_file
            &&& ls[1] == v.last_dir
            &&& ls[2] == spec_decimal(v.extra_files as nat)
            &&& ls[3] == spec_decimal(v.extra_dirs as nat)
            &&& ls[4] == spec_decimal(v.missing_files as nat)
            &&& ls[5] == spec_decimal(v.missing_dirs as nat)
            &&& ls[6] == spec_decimal(v.total_files as nat)
            &&& ls[7] == spec_decimal(v.total_dirs as nat)
            &&& ls[8] == spec_decimal(v.total_bytes as nat)
            &&& spec_parse_u64(ls[2]) == Ok::<nat, IntErrorKind>(v.extra_files as nat)
            &&& spec_parse_u64(ls[3]) == Ok::<nat, IntErrorKind>(v.extra_dirs as nat)
            &&& spec_parse_u64(ls[4]) == Ok::<nat, IntErrorKind>(v.missing_files as nat)
            &&& spec_parse_u64(ls[5]) == Ok::<nat, IntErrorKind>(v.missing_dirs as nat)
            &&& spec_parse_u64(ls[6]) == Ok::<nat, IntErrorKind>(v.total_files as nat)
            &&& spec_parse_u64(ls[7]) == Ok::<nat, IntErrorKind>(v.total_dirs as nat)
            &&& spec_parse_u64(ls[8]) == Ok::<nat, IntErrorKind>(v.total_bytes as nat)
        }),
{
    let want = seq![
        v.last_file,
        v.last_dir,
        spec_decimal(v.extra_files as nat),
        spec_decimal(v.extra_dirs as nat),
        spec_decimal(v.missing_files as nat),
        spec_decimal(v.missing_dirs as nat),
        spec_decimal(v.total_files as nat),
        spec_decimal(v.total_dirs as nat),
        spec_decimal(v.total_bytes as nat),
    ];
    let text = spec_serialize(v);
    reveal_with_fuel(join_lines, 10);
    assert(text.drop_last() =~= join_lines(want));
    assert(text.last() == '\n');
    lemma_decimal_no_newline(v.extra_files as nat);
    lemma_decimal_no_newline(v.extra_dirs as nat);
    lemma_decimal_no_newline(v.missing_files as nat);
    lemma_decimal_no_newline(v.missing_dirs as nat);
    lemma_decimal_no_newline(v.total_files as nat);
    lemma_decimal_no_newline(v.total_dirs as nat);
    lemma_decimal_no_newline(v.total_bytes as nat);
    assert forall|i: int| 0 <= i < want.len() implies no_newline(#[trigger] want[i]) by {}
    lemma_split_join(want);
    law_parse_decimal(v.extra_files);
    law_parse_decimal(v.extra_dirs);
    law_parse_decimal(v.missing_files);
    law_parse_decimal(v.missing_dirs);
    law_parse_decimal(v.total_files);
    law_parse_decimal(v.total_dirs);
    law_parse_decimal(v.total_bytes);
}

proof fn lemma_scan_fits(d: Seq<char>, acc: nat)
    requires
        acc <= u64::MAX,
    ensures
        scan_decimal(d, acc) matches Ok(x) ==> x <= u64::MAX,
    decreases d.len(),
{
    if d.len() > 0 && is_dec_digit(d[0]) && acc * 10 + dec_digit_value(d[0]) <= u64::MAX {
        lemma_scan_fits(d.drop_first(), acc * 10 + dec_digit_value(d[0]));
    }
}

proof fn lemma_parse_u64_fits(s: Seq<char>)
    ensures
        spec_parse_u64(s) matches Ok(x) ==> x <= u64::MAX,
{
    lemma_scan_fits(s, 0);
    if s.len() > 0 {
        lemma_scan_fits(s.drop_first(), 0);
    }
}

/// Law (the reader, line by line): text that reads as sidecar values ends
/// in a line feed and holds nine lines; the first two are the last file and
/// directory indices, and lines 3 to 9 are decimal `u64`s giving
/// extra_files, extra_dirs, missing_files, missing_dirs, total_files,
/// total_dirs and total_bytes, in that order.
pub proof fn law_parse_lines(t: Seq<char>)
    requires
        spec_parse(t) is Ok,
    ensures
        t.len() > 0,
        t.last() == '\n',
        ({
            let ls = split_lines(t.drop_last());
            let w = spec_parse(t)->Ok_0;
            &&& ls.len() == 9
            &&& w.last_file == ls[0]
            &&& w.last_dir == ls[1]
            &&& spec_parse_u64(ls[2]) == Ok::<nat, IntErrorKind>(w.extra_files as nat)
            &&& spec_parse_u64(ls[3]) == Ok::<nat, IntErrorKind>(w.extra_dirs as nat)
            &&& spec_parse_u64(ls[4]) == Ok::<nat, IntErrorKind>(w.missing_files as nat)
            &&& spec_parse_u64(ls[5]) == Ok::<nat, IntErrorKind>(w.missing_dirs as nat)
            &&& spec_parse_u64(ls[6]) == Ok::<nat, IntErrorKind>(w.total_files as nat)
            &&& spec_parse_u64(ls[7]) == Ok::<nat, IntErrorKind>(w.total_dirs as nat)
            &&& spec_parse_u64(ls[8]) == Ok::<nat, IntErrorKind>(w.total_bytes as nat)
        }),
{
    let ls = split_lines(t.drop_last());
    reveal_with_fuel(first_bad_count, 8);
    assert(first_bad_count(ls, 2) == 9);
    assert forall|i: int| 2 <= i < 9 implies #[trigger] spec_parse_u64(ls[i]) is Ok by {
        reveal_with_fuel(first_bad_count, 8);
    }
    lemma_parse_u64_fits(ls[2]);
    lemma_parse_u64_fits(ls[3]);
    lemma_parse_u64_fits(ls[4]);
    lemma_parse_u64_fits(ls[5]);
    lemma_parse_u64_fits(ls[6]);
    lemma_parse_u64_fits(ls[7]);
    lemma_parse_u64_fits(ls[8]);
}

} // verus!
