//! The lookup table: an optional preamble for the script, and a mapping
//! from source identifiers to target terms.
//!
//! A table is a text of lines. `%P` opens a preamble region and `%L` a
//! mapping region; `%%` closes either. The lines of the preamble regions
//! are kept as they are. A mapping region holds one record `source=target`
//! on each line that is not empty.

use vstd::prelude::*;
use crate::error::MalformedConfiguration;
use crate::text::texts;

verus! {

/// Where in a table a line stands.
#[derive(Clone, Copy, Debug, PartialEq, Eq, Structural)]
pub enum Region {
    /// Outside every region.
    Outside,
    /// Between `%P` and `%%`.
    Preamble,
    /// Between `%L` and `%%`.
    Mappings,
}

/// What a table holds.
pub struct Table {
    /// The lines of the preamble regions, each with its line break, if
    /// there was any such line.
    pub preamble: Option<Seq<char>>,
    /// The records of the mapping regions in the order of their lines, as
    /// pairs of source and target.
    pub mappings: Seq<(Seq<char>, Seq<char>)>,
}

/// A table read in part: the region that is open, the number of the line
/// that opened it, and what was read.
pub struct Progress {
    pub region: Region,
    pub opened: nat,
    pub table: Table,
}

/// The index of the first `c` in `text`, or the length of `text` if it
/// holds none.
pub open spec fn first_index(text: Seq<char>, c: char) -> nat
    decreases text.len(),
{
    if text.len() == 0 || text[0] == c {
        0
    } else {
        1 + first_index(text.skip(1), c)
    }
}

/// The lines of `text`: what stands between its line breaks. A last line
/// need not end in a line break, and a text that ends in one has no empty
/// line after it.
pub open spec fn lines_of(text: Seq<char>) -> Seq<Seq<char>>
    decreases text.len(),
{
    if text.len() == 0 {
        Seq::empty()
    } else {
        let k = first_index(text, '\n');
        if k >= text.len() {
            seq![text]
        } else {
            seq![text.take(k as int)] + lines_of(text.skip(k as int + 1))
        }
    }
}

/// The table `t` with `line` and a line break added to its preamble.
pub open spec fn with_preamble_line(t: Table, line: Seq<char>) -> Table {
    Table {
        preamble: Some(
            match t.preamble {
                Some(before) => before + line + "\n"@,
                None => line + "\n"@,
            },
        ),
        ..t
    }
}

/// What the line `line`, with the number `number`, adds to `p`, or
/// `number` if the line cannot stand there.
pub open spec fn feed(p: Progress, line: Seq<char>, number: nat) -> Result<Progress, nat> {
    match p.region {
        Region::Outside => if line == "%P"@ {
            Ok(Progress { region: Region::Preamble, opened: number, ..p })
        } else if line == "%L"@ {
            Ok(Progress { region: Region::Mappings, opened: number, ..p })
        } else {
            Err(number)
        },
        Region::Preamble => if line == "%%"@ {
            Ok(Progress { region: Region::Outside, ..p })
        } else {
            Ok(Progress { table: with_preamble_line(p.table, line), ..p })
        },
        Region::Mappings => if line == "%%"@ {
            Ok(Progress { region: Region::Outside, ..p })
        } else if line.len() == 0 {
            Ok(p)
        } else {
            let k = first_index(line, '=');
            if k >= line.len() {
                Err(number)
            } else {
                Ok(
                    Progress {
                        table: Table {
                            mappings: p.table.mappings.push((line.take(k as int), line.skip(k as int + 1))),
                            ..p.table
                        },
                        ..p
                    },
                )
            }
        },
    }
}

/// Nothing read yet.
pub open spec fn nothing_read() -> Progress {
    Progress {
        region: Region::Outside,
        opened: 0,
        table: Table { preamble: None, mappings: Seq::empty() },
    }
}

/// What the first `n` of `lines` give, or the number of the first line
/// that cannot stand where it does.
pub open spec fn feed_all(lines: Seq<Seq<char>>, n: nat) -> Result<Progress, nat>
    decreases n,
{
    if n == 0 {
        Ok(nothing_read())
    } else {
        match feed_all(lines, (n - 1) as nat) {
            Ok(p) => feed(p, lines[n - 1], n),
            Err(number) => Err(number),
        }
    }
}

/// The table that `lines` give. A region that is still open at the end
/// is an error at the line that opened it.
pub open spec fn table_of(lines: Seq<Seq<char>>) -> Result<Table, nat> {
    match feed_all(lines, lines.len()) {
        Ok(p) => if p.region == Region::Outside {
            Ok(p.table)
        } else {
            Err(p.opened)
        },
        Err(number) => Err(number),
    }
}

/// The target of the last record of `mappings` for `source`, if there is
/// one: a later record replaces an earlier one.
pub open spec fn target_of(mappings: Seq<(Seq<char>, Seq<char>)>, source: Seq<char>) -> Option<
    Seq<char>,
>
    decreases mappings.len(),
{
    if mappings.len() == 0 {
        None
    } else if mappings.last().0 == source {
        Some(mappings.last().1)
    } else {
        target_of(mappings.drop_last(), source)
    }
}

/// A text without `c` before `k`, and with `c` at `k` or its end there,
/// has its first `c` at `k`.
pub proof fn lemma_first_index(text: Seq<char>, c: char, k: nat)
    requires
        k <= text.len(),
        forall|i: int| 0 <= i < k ==> text[i] != c,
        k == text.len() || text[k as int] == c,
    ensures
        first_index(text, c) == k,
    decreases k,
{
    if k > 0 {
        let rest = text.skip(1);
        assert forall|i: int| 0 <= i < k - 1 implies rest[i] != c by {
            assert(rest[i] == text[i + 1]);
        }
        lemma_first_index(rest, c, (k - 1) as nat);
    }
}

/// The pairs that `v` holds.
pub open spec fn pairs(v: Seq<(String, String)>) -> Seq<(Seq<char>, Seq<char>)> {
    Seq::new(v.len(), |i: int| (v[i].0@, v[i].1@))
}

/// A lookup table.
pub struct LookupTable {
    mappings: Vec<(String, String)>,
    preamble: Option<String>,
}

impl View for LookupTable {
    type V = Table;

    closed spec fn view(&self) -> Table {
        Table {
            preamble: match self.preamble {
                Some(text) => Some(text@),
                None => None,
            },
            mappings: pairs(self.mappings@),
        }
    }
}

/// The index of the first `c` of `text` at or after `from`, or the length
/// of `text` if none follows.
fn find_char(text: &str, from: usize, len: usize, c: char) -> (at: usize)
    requires
        from <= len,
        len == text@.len(),
    ensures
        from <= at <= len,
        at - from == first_index(text@.skip(from as int), c),
{
    let mut at = from;
    while at < len && text.get_char(at) != c
        invariant
            from <= at <= len,
            len == text@.len(),
            forall|i: int| from <= i < at ==> text@[i] != c,
        decreases len - at,
    {
        at += 1;
    }
    proof {
        lemma_first_index(text@.skip(from as int), c, (at - from) as nat);
    }
    at
}

/// Splits `text` into its lines.
pub fn split_lines(text: &str) -> (lines: Vec<String>)
    ensures
        texts(lines@) == lines_of(text@),
{
    let len = text.unicode_len();
    let mut lines: Vec<String> = Vec::new();
    let mut start: usize = 0;
    proof {
        assert(text@.skip(0) =~= text@);
        assert(texts(lines@) + lines_of(text@) =~= lines_of(text@));
    }
    while start < len
        invariant
            start <= len,
            len == text@.len(),
            lines_of(text@) == texts(lines@) + lines_of(text@.skip(start as int)),
        decreases len - start,
    {
        let end = find_char(text, start, len, '\n');
        let line = String::from_str(text.substring_char(start, end));
        let ghost before = texts(lines@);
        let ghost rest = text@.skip(start as int);
        lines.push(line);
        proof {
            assert(texts(lines@) =~= before + seq![line@]);
            assert(line@ =~= rest.take(end - start));
            if end < len {
                assert(rest.skip(end - start + 1) =~= text@.skip(end + 1));
                assert(lines_of(rest) == seq![line@] + lines_of(text@.skip(end + 1)));
                assert(before + (seq![line@] + lines_of(text@.skip(end + 1))) =~= (before
                    + seq![line@]) + lines_of(text@.skip(end + 1)));
            } else {
                assert(rest.take(end - start) =~= rest);
                assert(text@.skip(len as int).len() == 0);
                assert(before + seq![line@] =~= (before + seq![line@]) + lines_of(
                    text@.skip(len as int),
                ));
            }
        }
        start = if end < len {
            end + 1
        } else {
            end
        };
    }
    proof {
        assert(texts(lines@) + Seq::<Seq<char>>::empty() =~= texts(lines@));
    }
    lines
}

impl LookupTable {
    /// A table without preamble and without records.
    pub fn empty() -> (table: Self)
        ensures
            table@ == nothing_read().table,
    {
        let table = LookupTable { mappings: Vec::new(), preamble: None };
        assert(table@.mappings =~= Seq::empty());
        table
    }

    /// Reads a table from its text, or returns `None` if the text is no
    /// table.
    pub fn new(content: &str) -> (table: Option<Self>)
        ensures
            match table_of(lines_of(content@)) {
                Ok(t) => table is Some && table->0@ == t,
                Err(_) => table is None,
            },
    {
        match LookupTable::parse(content) {
            Ok(table) => Some(table),
            Err(_) => None,
        }
    }

    /// Reads a table from its text. The error names the first line that
    /// cannot stand where it does, or the line that opened a region that
    /// is never closed.
    pub fn parse(content: &str) -> (r: Result<Self, MalformedConfiguration>)
        ensures
            match table_of(lines_of(content@)) {
                Ok(t) => r is Ok && r->Ok_0@ == t,
                Err(number) => r is Err && r->Err_0.line == number,
            },
    {
        let lines = split_lines(content);
        LookupTable::from_lines(&lines)
    }

    /// Reads a table from its lines, given without their line breaks.
    pub fn from_lines(lines: &Vec<String>) -> (r: Result<Self, MalformedConfiguration>)
        ensures
            match table_of(texts(lines@)) {
                Ok(t) => r is Ok && r->Ok_0@ == t,
                Err(number) => r is Err && r->Err_0.line == number,
            },
    {
        let open_preamble = String::from_str("%P");
        let open_mappings = String::from_str("%L");
        let close = String::from_str("%%");
        let mut table = LookupTable::empty();
        let mut region = Region::Outside;
        let mut opened: usize = 0;
        let mut i: usize = 0;
        while i < lines.len()
            invariant
                i <= lines.len(),
                open_preamble@ == "%P"@,
                open_mappings@ == "%L"@,
                close@ == "%%"@,
                feed_all(texts(lines@), i as nat) == Ok::<Progress, nat>(
                    Progress { region, opened: opened as nat, table: table@ },
                ),
            decreases lines.len() - i,
        {
            let line = &lines[i];
            let number: usize = i + 1;
            let ghost before = Progress { region, opened: opened as nat, table: table@ };
            let ghost fed = feed(before, line@, number as nat);
            assert(texts(lines@)[i as int] == line@);
            match region {
                Region::Outside => {
                    if *line == open_preamble {
                        region = Region::Preamble;
                        opened = number;
                    } else if *line == open_mappings {
                        region = Region::Mappings;
                        opened = number;
                    } else {
                        proof {
                            lemma_feed_fails_on(texts(lines@), number as nat, lines.len() as nat);
                        }
                        return Err(MalformedConfiguration { line: number });
                    }
                },
                Region::Preamble => {
                    if *line == close {
                        region = Region::Outside;
                    } else {
                        let mut text = match &table.preamble {
                            Some(before) => before.clone(),
                            None => String::new(),
                        };
                        text.append(line.as_str());
                        text.append("\n");
                        table.preamble = Some(text);
                        assert(table@.preamble->0 =~= fed->Ok_0.table.preamble->0);
                    }
                },
                Region::Mappings => {
                    if *line == close {
                        region = Region::Outside;
                    } else {
                        let record = line.as_str();
                        let len = record.unicode_len();
                        if len > 0 {
                            let at = find_char(record, 0, len, '=');
                            assert(record@.skip(0) =~= record@);
                            if at >= len {
                                proof {
                                    lemma_feed_fails_on(
                                        texts(lines@),
                                        number as nat,
                                        lines.len() as nat,
                                    );
                                }
                                return Err(MalformedConfiguration { line: number });
                            }
                            let source = String::from_str(record.substring_char(0, at));
                            let target = String::from_str(record.substring_char(at + 1, len));
                            table.mappings.push((source, target));
                            assert(source@ =~= line@.take(at as int));
                            assert(target@ =~= line@.skip(at + 1));
                            assert(table@.mappings =~= fed->Ok_0.table.mappings);
                        }
                    }
                },
            }
            assert(fed == Ok::<Progress, nat>(
                Progress { region, opened: opened as nat, table: table@ },
            ));
            i += 1;
        }
        match region {
            Region::Outside => Ok(table),
            _ => Err(MalformedConfiguration { line: opened }),
        }
    }

    /// The preamble, if the table has one.
    pub fn preamble(&self) -> (r: Option<&String>)
        ensures
            match r {
                Some(text) => self@.preamble == Some(text@),
                None => self@.preamble is None,
            },
    {
        self.preamble.as_ref()
    }

    /// `script` with the preamble, if the table has one, before it.
    pub fn prepend_preamble(&self, script: &str) -> (out: String)
        ensures
            out@ == match self@.preamble {
                Some(text) => text + script@,
                None => script@,
            },
    {
        let mut out = match &self.preamble {
            Some(text) => text.clone(),
            None => String::new(),
        };
        out.append(script);
        assert(Seq::<char>::empty() + script@ =~= script@);
        out
    }

    /// The number of records.
    pub fn len(&self) -> (n: usize)
        ensures
            n == self@.mappings.len(),
    {
        self.mappings.len()
    }

    /// The target term of `source`, if a record maps it.
    pub fn lookup(&self, source: &String) -> (r: Option<&String>)
        ensures
            match r {
                Some(target) => target_of(self@.mappings, source@) == Some(target@),
                None => target_of(self@.mappings, source@) is None,
            },
    {
        let mut i: usize = self.mappings.len();
        assert(self@.mappings.take(i as int) =~= self@.mappings);
        while i > 0
            invariant
                i <= self.mappings.len(),
                target_of(self@.mappings, source@) == target_of(
                    self@.mappings.take(i as int),
                    source@,
                ),
            decreases i,
        {
            let ghost head = self@.mappings.take(i as int);
            assert(head.drop_last() =~= self@.mappings.take(i - 1));
            assert(head.last() == self@.mappings[i - 1]);
            if self.mappings[i - 1].0 == *source {
                return Some(&self.mappings[i - 1].1);
            }
            i -= 1;
        }
        None
    }
}

/// A table that has failed at a line fails the same way with more lines.
pub proof fn lemma_feed_fails_on(lines: Seq<Seq<char>>, n: nat, m: nat)
    requires
        n <= m,
        feed_all(lines, n) is Err,
    ensures
        feed_all(lines, m) == feed_all(lines, n),
    decreases m,
{
    if n < m {
        lemma_feed_fails_on(lines, n, (m - 1) as nat);
    }
}

} // verus!
