//! The table from language names to language codes, read from
//! tab-separated text.
use vstd::prelude::*;
use vstd::string::StringSliceAdditionalSpecFns;
use vstd::utf8::{decode_utf8, encode_utf8_valid_utf8, valid_utf8};
use crate::bytes::{find_byte, lemma_ascii_split, position_of, text_of};
use crate::key_index::KeyIndex;
use crate::error::Error;
use crate::language_code::{LanguageCode, MAX_CODE_LEN};

verus! {

pub const NEWLINE: u8 = 10;

pub const TAB: u8 = 9;

pub const CARRIAGE_RETURN: u8 = 13;

/// A line without the carriage return that ended it, if any.
pub open spec fn strip_cr(l: Seq<u8>) -> Seq<u8> {
    if l.len() > 0 && l.last() == CARRIAGE_RETURN {
        l.drop_last()
    } else {
        l
    }
}

/// The lines of `b` from the line that starts at `start`, scanning from `i`.
/// A line ends at a newline, and then loses a carriage return before it;
/// the last line needs no newline, and text that ends in a newline has no
/// empty line after it.
pub open spec fn lines_from(b: Seq<u8>, start: int, i: int) -> Seq<Seq<u8>>
    decreases b.len() - i,
{
    if i >= b.len() {
        if start < b.len() {
            seq![b.subrange(start, b.len() as int)]
        } else {
            seq![]
        }
    } else if b[i] == NEWLINE {
        seq![strip_cr(b.subrange(start, i))] + lines_from(b, i + 1, i + 1)
    } else {
        lines_from(b, start, i + 1)
    }
}

/// The lines of a text, given as its bytes.
pub open spec fn split_lines(b: Seq<u8>) -> Seq<Seq<u8>> {
    lines_from(b, 0, 0)
}

/// What is wrong with a line of the table.
#[derive(Clone, Copy, Debug, PartialEq, Eq)]
pub enum LineFault {
    MissingTab,
    CodeTooLong,
}

/// A non-empty line read as a name, a tab, and a code; the name ends at the
/// first tab.
pub open spec fn parse_line(l: Seq<u8>) -> Result<(Seq<u8>, Seq<u8>), LineFault> {
    let t = position_of(l, TAB, 0);
    if t >= l.len() {
        Err(LineFault::MissingTab)
    } else if l.len() - (t + 1) > MAX_CODE_LEN {
        Err(LineFault::CodeTooLong)
    } else {
        Ok((l.take(t), l.skip(t + 1)))
    }
}

/// The (name, code) pairs of the lines in order, empty lines skipped; or the
/// fault of the first bad line with its 1-based number.
pub open spec fn parse_table(lines: Seq<Seq<u8>>) -> Result<
    Seq<(Seq<u8>, Seq<u8>)>,
    (LineFault, int),
>
    decreases lines.len(),
{
    if lines.len() == 0 {
        Ok(seq![])
    } else {
        match parse_table(lines.drop_last()) {
            Err(e) => Err(e),
            Ok(pairs) => if lines.last().len() == 0 {
                Ok(pairs)
            } else {
                match parse_line(lines.last()) {
                    Err(f) => Err((f, lines.len() as int)),
                    Ok(pair) => Ok(pairs.push(pair)),
                }
            },
        }
    }
}

/// The mapping that a sequence of pairs gives when later pairs overwrite
/// earlier ones of the same name.
pub open spec fn map_of(pairs: Seq<(Seq<u8>, Seq<u8>)>) -> Map<Seq<u8>, Seq<u8>>
    decreases pairs.len(),
{
    if pairs.len() == 0 {
        Map::empty()
    } else {
        map_of(pairs.drop_last()).insert(pairs.last().0, pairs.last().1)
    }
}

/// Where no pair from `n` on has name `k`, the first `n` pairs decide `k`.
proof fn lemma_map_of_prefix(pairs: Seq<(Seq<u8>, Seq<u8>)>, n: int, k: Seq<u8>)
    requires
        0 <= n <= pairs.len(),
        forall|j: int| n <= j < pairs.len() ==> pairs[j].0 != k,
    ensures
        map_of(pairs).contains_key(k) == map_of(pairs.take(n)).contains_key(k),
        map_of(pairs).contains_key(k) ==> map_of(pairs)[k] == map_of(pairs.take(n))[k],
    decreases pairs.len(),
{
    if pairs.len() > n {
        lemma_map_of_prefix(pairs.drop_last(), n, k);
        assert(pairs.drop_last().take(n) =~= pairs.take(n));
    } else {
        assert(pairs.take(n) =~= pairs);
    }
}

/// The error that a faulty line gives.
pub open spec fn is_line_error(
    e: Error,
    fault: LineFault,
    number: int,
    path: Seq<char>,
    line: Seq<u8>,
) -> bool {
    match e {
        Error::InvalidNameToCodeFormat { path: p, line_number: n, line: l } => fault
            == LineFault::MissingTab && n == number && p@ == path && l@ == decode_utf8(line),
        Error::InvalidLanguageCode { path: p, line_number: n, line: l } => fault
            == LineFault::CodeTooLong && n == number && p@ == path && l@ == decode_utf8(line),
        _ => false,
    }
}

/// Language names mapped to language codes. Names are compared as bytes,
/// case-sensitively.
pub struct LanguageNameToCode {
    names: KeyIndex,
    codes: Vec<LanguageCode>,
}

impl LanguageNameToCode {
    #[verifier::type_invariant]
    closed spec fn well_formed(self) -> bool {
        self.names.wf() && self.names@.len() == self.codes.len()
    }

    /// The pairs in the order in which they were read.
    pub closed spec fn pairs(self) -> Seq<(Seq<u8>, Seq<u8>)> {
        Seq::new(self.codes.len() as nat, |i: int| (self.names@[i], self.codes[i]@))
    }
}

/// The pairs that two parallel vectors hold.
pub open spec fn zip_pairs(names: Seq<Seq<u8>>, codes: Seq<LanguageCode>) -> Seq<
    (Seq<u8>, Seq<u8>),
> {
    Seq::new(codes.len(), |i: int| (names[i], codes[i]@))
}

/// Reads a non-empty line as a name, a tab, and a code.
fn read_line(line: &[u8]) -> (r: Result<(usize, LanguageCode), LineFault>)
    requires
        line@.len() > 0,
        valid_utf8(line@),
    ensures
        match parse_line(line@) {
            Ok(pair) => r matches Ok((t, code)) && t <= line@.len() && line@.take(t as int)
                == pair.0 && code@ == pair.1,
            Err(f) => r == Err::<(usize, LanguageCode), LineFault>(f),
        },
{
    let t = find_byte(line, TAB, 0);
    proof {
        crate::bytes::lemma_position_of_bounds(line@, TAB, 0);
    }
    if t >= line.len() {
        return Err(LineFault::MissingTab);
    }
    let code_bytes = &line[t + 1..line.len()];
    assert(code_bytes@ =~= line@.skip(t + 1));
    proof {
        lemma_ascii_split(line@, t as int);
    }
    match LanguageCode::from_bytes(code_bytes) {
        None => Err(LineFault::CodeTooLong),
        Some(code) => Ok((t, code)),
    }
}

/// The error for a faulty line, which carries the line's text.
fn line_error(fault: LineFault, number: usize, path: &str, line: &[u8]) -> (e: Error)
    requires
        valid_utf8(line@),
    ensures
        is_line_error(e, fault, number as int, path@, line@),
{
    let text = text_of(line);
    match fault {
        LineFault::MissingTab => Error::InvalidNameToCodeFormat {
            path: path.to_owned(),
            line_number: number,
            line: text,
        },
        LineFault::CodeTooLong => Error::InvalidLanguageCode {
            path: path.to_owned(),
            line_number: number,
            line: text,
        },
    }
}

impl LanguageNameToCode {
    /// Looks up a name given as bytes.
    pub fn get_bytes(&self, name: &[u8]) -> (r: Option<LanguageCode>)
        ensures
            r is Some <==> self@.contains_key(name@),
            r matches Some(c) ==> c@ == self@[name@],
    {
        proof {
            use_type_invariant(self);
        }
        match self.names.last_position(name) {
            Some(i) => {
                proof {
                    let p = self.pairs();
                    lemma_map_of_prefix(p, i + 1, name@);
                    assert(p.take(i + 1).drop_last() =~= p.take(i as int));
                }
                Some(self.codes[i])
            },
            None => {
                proof {
                    lemma_map_of_prefix(self.pairs(), 0, name@);
                }
                None
            },
        }
    }

    /// Looks up a name, byte for byte.
    pub fn get(&self, name: &str) -> (r: Option<LanguageCode>)
        ensures
            r is Some <==> self@.contains_key(name.spec_bytes()),
            r matches Some(c) ==> c@ == self@[name.spec_bytes()],
    {
        self.get_bytes(name.as_bytes())
    }

    /// Reads the table from tab-separated text; `path` names the source in
    /// errors. Each non-empty line is a name, a tab, and a code, and a later
    /// line overwrites an earlier one of the same name. The first line with
    /// no tab, or with a code over `MAX_CODE_LEN` bytes, fails the whole load.
    pub fn from_tsv(path: &str, text: &str) -> (r: Result<LanguageNameToCode, Error>)
        ensures
            match parse_table(split_lines(text.spec_bytes())) {
                Ok(pairs) => r matches Ok(t) && t.pairs() == pairs && t@ == map_of(pairs),
                Err((f, n)) => r matches Err(e) && 1 <= n <= split_lines(text.spec_bytes()).len()
                    && is_line_error(e, f, n, path@, split_lines(text.spec_bytes())[n - 1]),
            },
    {
        let b = text.as_bytes();
        let ghost all = split_lines(b@);
        let mut names = KeyIndex::new();
        let mut codes: Vec<LanguageCode> = Vec::new();
        let mut start: usize = 0;
        let mut i: usize = 0;
        let mut count: usize = 0;
        let ghost mut done: Seq<Seq<u8>> = seq![];
        assert(zip_pairs(names@, codes@) =~= seq![]);
        proof {
            encode_utf8_valid_utf8(text@);
            assert(b@.subrange(0, b@.len() as int) =~= b@);
        }
        while i < b.len()
            invariant
                b@ == text.spec_bytes(),
                all == split_lines(b@),
                0 <= start <= i <= b@.len(),
                valid_utf8(b@.subrange(start as int, b@.len() as int)),
                done + lines_from(b@, start as int, i as int) == all,
                count == done.len(),
                count <= start,
                names.wf(),
                names@.len() == codes.len(),
                parse_table(done) == Ok::<Seq<(Seq<u8>, Seq<u8>)>, (LineFault, int)>(
                    zip_pairs(names@, codes@),
                ),
            decreases b@.len() - i,
        {
            if b[i] == NEWLINE {
                let end = if i > start && b[i - 1] == CARRIAGE_RETURN {
                    i - 1
                } else {
                    i
                };
                let line = &b[start..end];
                assert(line@ =~= strip_cr(b@.subrange(start as int, i as int)));
                proof {
                    let rest = b@.subrange(start as int, b@.len() as int);
                    assert(rest[i - start] == b@[i as int]);
                    lemma_ascii_split(rest, i - start);
                    assert(rest.subrange(0, i - start) =~= b@.subrange(start as int, i as int));
                    assert(rest.subrange(i - start + 1, rest.len() as int) =~= b@.subrange(
                        i + 1,
                        b@.len() as int,
                    ));
                    if end < i {
                        let whole = b@.subrange(start as int, i as int);
                        assert(whole[end - start] == b@[end as int]);
                        lemma_ascii_split(whole, end - start);
                        assert(whole.subrange(0, end - start) =~= line@);
                    }
                }
                let ghost next = done.push(line@);
                assert(done + lines_from(b@, start as int, i as int) =~= next + lines_from(
                    b@,
                    i + 1,
                    i + 1,
                ));
                let step = take_line(&mut names, &mut codes, line);
                proof {
                    assert(next.drop_last() =~= done);
                    assert(all[next.len() - 1] == next[next.len() - 1]);
                    assert(all.take(next.len() as int) =~= next);
                }
                if let Err(f) = step {
                    proof {
                        lemma_parse_table_error_stays(next, all);
                    }
                    return Err(line_error(f, count + 1, path, line));
                }
                proof {
                    done = next;
                }
                count = count + 1;
                start = i + 1;
            }
            i = i + 1;
        }
        if start < b.len() {
            let line = &b[start..b.len()];
            assert(line@ =~= b@.subrange(start as int, b@.len() as int));
            let ghost next = done.push(line@);
            assert(done + lines_from(b@, start as int, i as int) =~= next);
            let step = take_line(&mut names, &mut codes, line);
            proof {
                assert(next.drop_last() =~= done);
            }
            if let Err(f) = step {
                return Err(line_error(f, count + 1, path, line));
            }
        } else {
            assert(done =~= all);
        }
        let table = LanguageNameToCode { names, codes };
        assert(table.pairs() =~= zip_pairs(table.names@, table.codes@));
        Ok(table)
    }
}

/// Adds the pair that a line gives, if it is not empty.
fn take_line(names: &mut KeyIndex, codes: &mut Vec<LanguageCode>, line: &[u8]) -> (r: Result<
    (),
    LineFault,
>)
    requires
        old(names).wf(),
        old(names)@.len() == old(codes).len(),
        valid_utf8(line@),
    ensures
        final(names).wf(),
        final(names)@.len() == final(codes).len(),
        line@.len() == 0 ==> r is Ok && zip_pairs(final(names)@, final(codes)@) == zip_pairs(
            old(names)@,
            old(codes)@,
        ),
        line@.len() > 0 ==> match parse_line(line@) {
            Ok(pair) => r is Ok && zip_pairs(final(names)@, final(codes)@) == zip_pairs(
                old(names)@,
                old(codes)@,
            ).push(pair),
            Err(f) => r == Err::<(), LineFault>(f),
        },
{
    if line.len() == 0 {
        return Ok(());
    }
    let ghost before = zip_pairs(names@, codes@);
    match read_line(line) {
        Ok((t, code)) => {
            let name = &line[0..t];
            assert(name@ =~= line@.take(t as int));
            names.push(name);
            codes.push(code);
            assert(zip_pairs(names@, codes@) =~= before.push((name@, code@)));
            Ok(())
        },
        Err(f) => Err(f),
    }
}

/// A bad line decides the result of every longer run of lines.
proof fn lemma_parse_table_error_stays(pre: Seq<Seq<u8>>, all: Seq<Seq<u8>>)
    requires
        pre.len() <= all.len(),
        all.take(pre.len() as int) == pre,
        parse_table(pre) is Err,
    ensures
        parse_table(all) == parse_table(pre),
    decreases all.len(),
{
    if all.len() == pre.len() {
        assert(all =~= pre);
    } else {
        assert(all.drop_last().take(pre.len() as int) =~= pre);
        lemma_parse_table_error_stays(pre, all.drop_last());
    }
}

impl View for LanguageNameToCode {
    type V = Map<Seq<u8>, Seq<u8>>;

    open spec fn view(&self) -> Map<Seq<u8>, Seq<u8>> {
        map_of(self.pairs())
    }
}

/// A line that the table reads as a name and a code.
pub open spec fn is_valid_line(l: Seq<u8>) -> bool {
    l.len() > 0 && parse_line(l) is Ok
}

/// Lines that are each empty or valid load without error, one pair for each
/// valid line.
proof fn lemma_good_lines_load(lines: Seq<Seq<u8>>)
    requires
        forall|i: int| 0 <= i < lines.len() ==> lines[i].len() == 0 || is_valid_line(#[trigger] lines[i]),
    ensures
        parse_table(lines) is Ok,
    decreases lines.len(),
{
    if lines.len() > 0 {
        lemma_good_lines_load(lines.drop_last());
    }
}

/// The name that a valid line gives.
pub open spec fn line_name(l: Seq<u8>) -> Seq<u8> {
    (parse_line(l)->Ok_0).0
}

/// The code that a valid line gives.
pub open spec fn line_code(l: Seq<u8>) -> Seq<u8> {
    (parse_line(l)->Ok_0).1
}

/// No line after line `i` bears the same name.
pub open spec fn is_last_of_name(lines: Seq<Seq<u8>>, i: int) -> bool {
    forall|j: int| i < j < lines.len() ==> #[trigger] line_name(lines[j]) != line_name(lines[i])
}

/// Loading lines that are all valid succeeds, and each name maps to the code
/// on the last line that bears it.
pub proof fn lemma_valid_lines_map_names(lines: Seq<Seq<u8>>)
    requires
        forall|i: int| 0 <= i < lines.len() ==> is_valid_line(#[trigger] lines[i]),
    ensures
        parse_table(lines) is Ok,
        forall|i: int|
            0 <= i < lines.len() && #[trigger] is_last_of_name(lines, i) ==> map_of(
                parse_table(lines)->Ok_0,
            ).contains_key(line_name(lines[i])) && map_of(parse_table(lines)->Ok_0)[line_name(
                lines[i],
            )] == line_code(lines[i]),
    decreases lines.len(),
{
    if lines.len() > 0 {
        let rest = lines.drop_last();
        lemma_valid_lines_map_names(rest);
        let n = lines.len() - 1;
        let p = parse_table(rest)->Ok_0;
        let q = p.push(parse_line(lines[n])->Ok_0);
        assert(is_valid_line(lines[n]));
        assert(lines.last() == lines[n]);
        assert(parse_table(lines) == Ok::<Seq<(Seq<u8>, Seq<u8>)>, (LineFault, int)>(q));
        assert(q.drop_last() =~= p);
        assert(map_of(q) == map_of(p).insert(line_name(lines[n]), line_code(lines[n])));
        assert forall|i: int|
            0 <= i < lines.len() && #[trigger] is_last_of_name(lines, i) implies map_of(
            parse_table(lines)->Ok_0,
        ).contains_key(line_name(lines[i])) && map_of(parse_table(lines)->Ok_0)[line_name(
            lines[i],
        )] == line_code(lines[i]) by {
            if i < n {
                assert(rest[i] == lines[i]);
                assert forall|j: int| i < j < rest.len() implies #[trigger] line_name(rest[j])
                    != line_name(rest[i]) by {
                    assert(rest[j] == lines[j]);
                }
                assert(is_last_of_name(rest, i));
                assert(line_name(lines[n]) != line_name(lines[i]));
            }
        }
    }
}

/// The first non-empty line without a tab, after lines that are each empty
/// or valid, fails the load with its 1-based number.
pub proof fn lemma_missing_tab_fails(lines: Seq<Seq<u8>>, n: int)
    requires
        1 <= n <= lines.len(),
        forall|i: int| 0 <= i < n - 1 ==> lines[i].len() == 0 || is_valid_line(#[trigger] lines[i]),
        lines[n - 1].len() > 0,
        !lines[n - 1].contains(TAB),
    ensures
        parse_table(lines) == Err::<Seq<(Seq<u8>, Seq<u8>)>, (LineFault, int)>(
            (LineFault::MissingTab, n),
        ),
{
    let pre = lines.take(n);
    assert(pre.drop_last() =~= lines.take(n - 1));
    lemma_good_lines_load(lines.take(n - 1));
    crate::bytes::lemma_position_of_bounds(lines[n - 1], TAB, 0);
    assert(pre.last() == lines[n - 1]);
    lemma_parse_table_error_stays(pre, lines);
}

} // verus!
