use vstd::prelude::*;

verus! {

broadcast use vstd::string::axiom_spec_iter;

/// The characters of `s`, decoded once from start to end.
pub fn chars_of(s: &str) -> (r: Vec<char>)
    ensures
        r@ == s@,
{
    let mut out: Vec<char> = Vec::new();
    for c in it: s.chars()
        invariant
            out@ == it.seq().take(it.index() as int),
    {
        out.push(c);
    }
    proof {
        broadcast use vstd::string::axiom_spec_iter;
    }
    out
}

/// Relies on `String::push`: appends `c` to the end of `s`.
#[verifier::external_body]
fn push_char(s: &mut String, c: char)
    ensures
        final(s)@ == old(s)@.push(c),
{
    s.push(c);
}

/// A new string of the characters `from..to` of `cs`.
pub fn string_of(cs: &Vec<char>, from: usize, to: usize) -> (r: String)
    requires
        from <= to <= cs.len(),
    ensures
        r@ == cs@.subrange(from as int, to as int),
{
    let mut r = String::new();
    let mut k: usize = from;
    while k < to
        invariant
            from <= k <= to <= cs.len(),
            r@ == cs@.subrange(from as int, k as int),
        decreases to - k,
    {
        push_char(&mut r, cs[k]);
        k = k + 1;
        assert(r@ =~= cs@.subrange(from as int, k as int));
    }
    r
}

/// Index of the first `d` in `s`, or `s.len()` when `s` holds none.
pub open spec fn first_delim(s: Seq<char>, d: char) -> int
    decreases s.len(),
{
    if s.len() == 0 {
        0
    } else if s[0] == d {
        0
    } else {
        1 + first_delim(s.drop_first(), d)
    }
}

/// `s` split on `d` into at most `n` pieces; the last piece keeps any
/// delimiters that remain in it.
pub open spec fn split_n(s: Seq<char>, d: char, n: nat) -> Seq<Seq<char>>
    decreases n,
{
    if n == 0 {
        Seq::empty()
    } else if n == 1 || first_delim(s, d) >= s.len() {
        seq![s]
    } else {
        let i = first_delim(s, d);
        seq![s.subrange(0, i)] + split_n(s.subrange(i + 1, s.len() as int), d, (n - 1) as nat)
    }
}

/// `s` split on every `d`: a string of `len` characters has at most `len + 1`
/// pieces, so that bound never cuts a piece short.
pub open spec fn split_all(s: Seq<char>, d: char) -> Seq<Seq<char>> {
    split_n(s, d, (s.len() + 1) as nat)
}

/// Piece `k` of `s` split on `d` into at most `n` pieces, if there is one.
pub open spec fn field_of(s: Seq<char>, d: char, k: nat, n: nat) -> Option<Seq<char>> {
    let pieces = split_n(s, d, n);
    if k < pieces.len() {
        Some(pieces[k as int])
    } else {
        None
    }
}

/// The bound on the number of pieces that `limit` stands for: none means as
/// many as `s` can have.
pub open spec fn piece_bound(s: Seq<char>, limit: Option<usize>) -> nat {
    match limit {
        Some(n) => n as nat,
        None => (s.len() + 1) as nat,
    }
}

/// What an optional view into a string holds.
pub open spec fn view_opt(r: Option<&str>) -> Option<Seq<char>> {
    match r {
        Some(x) => Some(x@),
        None => None,
    }
}

proof fn lemma_first_delim(s: Seq<char>, d: char, r: int)
    requires
        0 <= r <= s.len(),
        forall|k: int| 0 <= k < r ==> s[k] != d,
        r < s.len() ==> s[r] == d,
    ensures
        first_delim(s, d) == r,
    decreases r,
{
    if r > 0 {
        lemma_first_delim(s.drop_first(), d, r - 1);
    }
}

/// Position of the first `d` in `s` at or after `from`, or `len` when none.
pub(crate) fn find_delim(s: &Vec<char>, d: char, from: usize, len: usize) -> (r: usize)
    requires
        from <= len <= s@.len(),
    ensures
        from <= r <= len,
        r - from == first_delim(s@.subrange(from as int, len as int), d),
        r < len ==> s@[r as int] == d,
{
    let mut j: usize = from;
    while j < len && s[j] != d
        invariant
            from <= j <= len <= s@.len(),
            forall|k: int| from <= k < j ==> s@[k] != d,
        decreases len - j,
    {
        j = j + 1;
    }
    proof {
        lemma_first_delim(s@.subrange(from as int, len as int), d, j - from);
    }
    j
}

/// Piece `index` of `s` split on `delimiter` into at most `limit` pieces (no
/// limit: split on every delimiter), as a view into `s`. The line is walked
/// once, with nothing allocated.
pub fn nth_field<'a>(s: &'a str, delimiter: char, index: usize, limit: Option<usize>) -> (r:
    Option<&'a str>)
    ensures
        view_opt(r) == field_of(s@, delimiter, index as nat, piece_bound(s@, limit)),
{
    let len = s.unicode_len();
    let ghost n: nat = piece_bound(s@, limit);
    if limit == Some(0usize) {
        return None;
    }
    let mut start: usize = 0;
    let mut piece: usize = 0;
    let mut end: Option<usize> = None;
    let mut k: usize = 0;
    proof {
        assert(s@.subrange(0, s@.len() as int) =~= s@);
        assert(split_n(s@, delimiter, n).len() >= 1);
        assert(split_n(s@, delimiter, n).skip(0) =~= split_n(s@, delimiter, n));
    }
    for c in it: s.chars()
        invariant
            it.seq() == s@,
            len == s@.len(),
            k == it.index(),
            n == piece_bound(s@, limit),
            piece <= index,
            piece <= start <= k,
            piece < n,
            piece < split_n(s@, delimiter, n).len(),
            split_n(s@, delimiter, n).skip(piece as int) =~= split_n(
                s@.subrange(start as int, s@.len() as int),
                delimiter,
                (n - piece) as nat,
            ),
            end is None && !(limit matches Some(l) && piece + 1 >= l) ==> forall|q: int|
                start <= q < k ==> s@[q] != delimiter,
            end matches Some(e) ==> {
                &&& piece == index
                &&& start <= e < s@.len()
                &&& !(limit matches Some(l) && piece + 1 >= l)
                &&& e - start == first_delim(s@.subrange(start as int, s@.len() as int), delimiter)
            },
    {
        let ghost rest = s@.subrange(start as int, s@.len() as int);
        let ghost m: nat = (n - piece) as nat;
        assert(c == s@[k as int]);
        if end.is_none() {
            let last = match limit {
                Some(l) => piece + 1 >= l,
                None => false,
            };
            if c == delimiter && !last {
                proof {
                    lemma_first_delim(rest, delimiter, k - start);
                }
                if piece < index {
                    proof {
                        let f = k - start;
                        assert(m >= 2);
                        assert(rest.subrange(f + 1, rest.len() as int) =~= s@.subrange(
                            k + 1,
                            s@.len() as int,
                        ));
                        assert(split_n(rest, delimiter, m) =~= seq![rest.subrange(0, f)] + split_n(
                            s@.subrange(k + 1, s@.len() as int),
                            delimiter,
                            (m - 1) as nat,
                        ));
                        assert(split_n(s@.subrange(k + 1, s@.len() as int), delimiter, (m - 1) as nat).len()
                            >= 1);
                        assert(split_n(s@, delimiter, n).skip(piece + 1) =~= split_n(
                            s@,
                            delimiter,
                            n,
                        ).skip(piece as int).skip(1));
                    }
                    piece = piece + 1;
                    start = k + 1;
                } else {
                    end = Some(k);
                }
            }
        }
        k = k + 1;
    }
    let ghost rest = s@.subrange(start as int, s@.len() as int);
    let ghost m: nat = (n - piece) as nat;
    let ghost pieces = split_n(s@, delimiter, n);
    proof {
        assert(pieces.skip(piece as int)[0] == pieces[piece as int]);
    }
    match end {
        Some(e) => {
            proof {
                assert(m >= 2);
                assert(rest.subrange(0, e - start) =~= s@.subrange(start as int, e as int));
            }
            Some(s.substring_char(start, e))
        },
        None => {
            proof {
                if !(limit matches Some(l) && piece + 1 >= l) {
                    lemma_first_delim(rest, delimiter, rest.len() as int);
                }
                assert(split_n(rest, delimiter, m) =~= seq![rest]);
            }
            if piece < index {
                None
            } else {
                Some(s.substring_char(start, k))
            }
        },
    }
}

/// `l` without one carriage return at its end.
pub open spec fn strip_cr(l: Seq<char>) -> Seq<char> {
    if l.len() > 0 && l.last() == '\r' {
        l.drop_last()
    } else {
        l
    }
}

/// The lines of `text`: split on `\n`, with a `\r` just before a `\n` dropped,
/// and no empty line after a final `\n`.
pub open spec fn lines_of(text: Seq<char>) -> Seq<Seq<char>> {
    let pieces = split_all(text, '\n');
    let body = pieces.drop_last().map_values(|l: Seq<char>| strip_cr(l));
    if pieces.last().len() == 0 {
        body
    } else {
        body.push(pieces.last())
    }
}

/// The lines of a command's output, each as its own string.
pub fn corpus_lines(text: &str) -> (r: Vec<String>)
    ensures
        r@.map_values(|s: String| s@) == lines_of(text@),
{
    let cs = chars_of(text);
    let len = cs.len();
    let ghost n: nat = (len + 1) as nat;
    let ghost pieces = split_all(text@, '\n');
    let mut out: Vec<String> = Vec::new();
    let mut start: usize = 0;
    let mut count: usize = 0;
    assert(text@.subrange(0, len as int) =~= text@);
    assert(pieces.skip(0) =~= pieces);
    loop
        invariant
            len == text@.len(),
            cs@ == text@,
            n == len + 1,
            pieces == split_all(text@, '\n'),
            count <= start <= len,
            count < pieces.len(),
            pieces.skip(count as int) =~= split_n(
                text@.subrange(start as int, len as int),
                '\n',
                (n - count) as nat,
            ),
            out@.map_values(|s: String| s@) =~= pieces.take(count as int).map_values(
                |l: Seq<char>| strip_cr(l),
            ),
        decreases len - start,
    {
        let ghost rest = text@.subrange(start as int, len as int);
        let ghost m: nat = (n - count) as nat;
        let i = find_delim(&cs, '\n', start, len);
        if i >= len {
            proof {
                assert(split_n(rest, '\n', m) =~= seq![rest]);
                assert(pieces.len() == count + 1);
                assert(pieces.last() == pieces.skip(count as int)[0]);
                assert(pieces.take(count as int) =~= pieces.drop_last());
            }
            if start < len {
                let ghost before = out@;
                out.push(string_of(&cs, start, len));
                assert(out@.map_values(|s: String| s@) =~= before.map_values(|s: String| s@).push(
                    rest,
                ));
            }
            return out;
        }
        let end = if i > start && cs[i - 1] == '\r' {
            i - 1
        } else {
            i
        };
        proof {
            let f = first_delim(rest, '\n');
            assert(m >= 2);
            assert(rest.subrange(f + 1, rest.len() as int) =~= text@.subrange(i + 1, len as int));
            assert(split_n(rest, '\n', m) =~= seq![rest.subrange(0, f)] + split_n(
                text@.subrange(i + 1, len as int),
                '\n',
                (m - 1) as nat,
            ));
            assert(split_n(text@.subrange(i + 1, len as int), '\n', (m - 1) as nat).len() >= 1);
            assert(pieces.skip(count + 1) =~= pieces.skip(count as int).skip(1));
            assert(pieces[count as int] == pieces.skip(count as int)[0]);
            assert(rest.subrange(0, f) =~= text@.subrange(start as int, i as int));
            assert(strip_cr(text@.subrange(start as int, i as int)) =~= text@.subrange(
                start as int,
                end as int,
            ));
            assert(pieces.take(count + 1) =~= pieces.take(count as int).push(pieces[count as int]));
        }
        let ghost before = out@;
        out.push(string_of(&cs, start, end));
        assert(out@.map_values(|s: String| s@) =~= before.map_values(|s: String| s@).push(
            text@.subrange(start as int, end as int),
        ));
        start = i + 1;
        count = count + 1;
    }
}

/// What part of a line is scored.
pub trait Extractor {
    /// The part of `line` that is scored, if the line has it.
    spec fn field(&self, line: Seq<char>) -> Option<Seq<char>>;

    fn extract<'a>(&self, s: &'a str) -> (r: Option<&'a str>)
        ensures
            view_opt(r) == self.field(s@),
    ;
}

/// Scores piece `index` of a line split on `delimiter` into at most
/// `partitions` pieces.
pub struct PartitionExtractor {
    pub index: usize,
    pub partitions: usize,
    pub delimiter: char,
}

impl Extractor for PartitionExtractor {
    open spec fn field(&self, line: Seq<char>) -> Option<Seq<char>> {
        field_of(line, self.delimiter, self.index as nat, self.partitions as nat)
    }

    fn extract<'a>(&self, s: &'a str) -> (r: Option<&'a str>) {
        nth_field(s, self.delimiter, self.index, Some(self.partitions))
    }
}

/// Scores piece `index` of a line split on every `delimiter`.
pub struct IndexExtractor {
    pub index: usize,
    pub delimiter: char,
}

impl Extractor for IndexExtractor {
    open spec fn field(&self, line: Seq<char>) -> Option<Seq<char>> {
        field_of(line, self.delimiter, self.index as nat, (line.len() + 1) as nat)
    }

    fn extract<'a>(&self, s: &'a str) -> (r: Option<&'a str>) {
        nth_field(s, self.delimiter, self.index, None)
    }
}

/// Scores the whole line.
pub struct ThroughExtractor;

impl Extractor for ThroughExtractor {
    open spec fn field(&self, line: Seq<char>) -> Option<Seq<char>> {
        Some(line)
    }

    fn extract<'a>(&self, s: &'a str) -> (r: Option<&'a str>) {
        Some(s)
    }
}

/// The field of each corpus line, extracted once for the whole session: the
/// corpus never changes, so neither do its fields.
pub fn fields<'a, E: Extractor>(corpus: &'a Vec<String>, extractor: &E) -> (r: Vec<Option<&'a str>>)
    ensures
        r@.len() == corpus@.len(),
        forall|i: int|
            0 <= i < corpus@.len() ==> view_opt(#[trigger] r@[i]) == extractor.field(corpus@[i]@),
{
    let mut out: Vec<Option<&'a str>> = Vec::new();
    let mut i: usize = 0;
    while i < corpus.len()
        invariant
            i <= corpus@.len(),
            out@.len() == i,
            forall|q: int|
                0 <= q < i ==> view_opt(#[trigger] out@[q]) == extractor.field(corpus@[q]@),
        decreases corpus.len() - i,
    {
        out.push(extractor.extract(corpus[i].as_str()));
        i = i + 1;
    }
    out
}

} // verus!
