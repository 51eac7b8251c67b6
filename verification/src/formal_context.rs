//! Formal contexts: objects, attributes and the incidence relation between
//! them, with the two derivation operators of the Galois connection.
use crate::bitset::{strictly_increasing, BitSet};
use crate::canonical_basis::lectic_rank;
use crate::text::{
    ascii_bytes, byte_lines, chars_to_string, dec_chars, decimal_chars, invalid_line_error,
    join_lines, lemma_dec_chars, lemma_join_lines_push, lemma_lines_no_newline, lemma_lines_of_join,
    lemma_plain_text_encodes_plain, lines_of, parse_usize, parse_usize_spec, plain_line,
    plain_text, push_line, utf8_chars,
};
use vstd::prelude::*;
use vstd::utf8::{decode_utf8, encode_utf8, is_ascii_chars, valid_utf8};

verus! {

/// Error returned when parsing a formal context from bytes fails.
#[derive(Debug)]
pub enum FormatError {
    /// A line of the context file is not valid UTF-8.
    IoError(std::io::Error),
    /// An integer field in the header could not be parsed.
    ParseError(std::num::ParseIntError),
    /// The file does not conform to the expected Burmeister (.cxt) format.
    InvalidFormat,
}

/// Formal context: a set of objects, a set of attributes, and a binary
/// incidence relation between them, all index-based.
#[derive(Debug)]
pub struct FormalContext<T> {
    /// The name of the formal context (Burmeister format line 2).
    pub name: String,
    /// The objects (rows) of the context table.
    pub objects: Vec<T>,
    /// The attributes (columns) of the context table.
    pub attributes: Vec<T>,
    /// The incidence relation: `(g, m)` is listed, once, iff object `g` has
    /// attribute `m`.
    pub incidence: Vec<(usize, usize)>,
    /// Row `g`: the attributes of object `g`.
    pub atomic_object_derivations: Vec<BitSet>,
    /// Column `m`: the objects that have attribute `m`.
    pub atomic_attribute_derivations: Vec<BitSet>,
}

/// Recording incidence pair `k` in row `a` at element `b`: `a` is the
/// object and `b` the attribute if `rows`, the other way round otherwise.
proof fn lemma_record_pair(
    old: Seq<BitSet>,
    new: Seq<BitSet>,
    inc: Seq<(usize, usize)>,
    k: int,
    a: usize,
    b: usize,
    rows: bool,
)
    requires
        0 <= k < inc.len(),
        inc[k] == (if rows { (a, b) } else { (b, a) }),
        a < old.len(),
        old.len() <= usize::MAX,
        new.len() == old.len(),
        new[a as int]@ == old[a as int]@.insert(b),
        forall|x: int| 0 <= x < old.len() && x != a ==> new[x] == old[x],
        forall|x: int, y: usize|
            0 <= x < old.len() ==> (#[trigger] old[x]@.contains(y) <==> exists|i: int|
                0 <= i < k && inc[i] == (if rows { (x as usize, y) } else { (y, x as usize) })),
    ensures
        forall|x: int, y: usize|
            0 <= x < old.len() ==> (#[trigger] new[x]@.contains(y) <==> exists|i: int|
                0 <= i < k + 1 && inc[i] == (if rows { (x as usize, y) } else { (y, x as usize) })),
{
    assert forall|x: int, y: usize| 0 <= x < old.len() implies (#[trigger] new[x]@.contains(y)
        <==> exists|i: int|
        0 <= i < k + 1 && inc[i] == (if rows { (x as usize, y) } else { (y, x as usize) })) by {
        if exists|i: int|
            0 <= i < k + 1 && inc[i] == (if rows { (x as usize, y) } else { (y, x as usize) }) {
            let i = choose|i: int|
                0 <= i < k + 1 && inc[i] == (if rows { (x as usize, y) } else { (y, x as usize) });
            if i < k {
                assert(old[x]@.contains(y));
                if x == a {
                } else {
                }
            } else {
                assert(x == a as int && y == b);
            }
        }
        if new[x]@.contains(y) && !old[x]@.contains(y) {
            assert(x == a && y == b);
            assert(inc[k] == (if rows { (x as usize, y) } else { (y, x as usize) }));
        }
    }
}

impl<T> FormalContext<T> {
    /// Object `g` has attribute `m`.
    pub open spec fn incident(&self, g: usize, m: usize) -> bool {
        self.incidence@.contains((g, m))
    }

    /// The objects that have every attribute of `attrs` (`attrs'`).
    pub open spec fn extent_of(&self, attrs: Set<usize>) -> Set<usize> {
        Set::new(
            |g: usize| g < self.objects@.len() && forall|m: usize| #[trigger]
                attrs.contains(m) ==> self.incident(g, m),
        )
    }

    /// The attributes that every object of `objs` has (`objs'`).
    pub open spec fn intent_of(&self, objs: Set<usize>) -> Set<usize> {
        Set::new(
            |m: usize| m < self.attributes@.len() && forall|g: usize| #[trigger]
                objs.contains(g) ==> self.incident(g, m),
        )
    }

    /// All indices below `n`.
    pub open spec fn below(n: nat) -> Set<usize> {
        Set::new(|i: usize| i < n)
    }

    /// The incidence list holds each pair once, inside the table, and the
    /// cached rows and columns agree with it.
    pub open spec fn wf(&self) -> bool {
        &&& self.atomic_object_derivations@.len() == self.objects@.len()
        &&& self.atomic_attribute_derivations@.len() == self.attributes@.len()
        &&& self.incidence@.no_duplicates()
        &&& forall|i: int|
            0 <= i < self.incidence@.len() ==> #[trigger] self.incidence@[i].0
                < self.objects@.len() && self.incidence@[i].1 < self.attributes@.len()
        &&& forall|g: int, m: usize|
            0 <= g < self.objects@.len() ==> (#[trigger] self.atomic_object_derivations@[g]@.contains(
                m,
            ) <==> (m < self.attributes@.len() && self.incident(g as usize, m)))
        &&& forall|m: int, g: usize|
            0 <= m < self.attributes@.len() ==> (
            #[trigger] self.atomic_attribute_derivations@[m]@.contains(g) <==> (g
                < self.objects@.len() && self.incident(g, m as usize)))
    }

    /// What well-formedness says of the cached rows and columns.
    pub(crate) proof fn lemma_wf(&self)
        requires
            self.wf(),
        ensures
            self.atomic_object_derivations@.len() == self.objects@.len(),
            self.atomic_attribute_derivations@.len() == self.attributes@.len(),
            self.incidence@.no_duplicates(),
            forall|g: usize, m: usize|
                #[trigger] self.incident(g, m) ==> g < self.objects@.len() && m
                    < self.attributes@.len(),
            forall|g: int, m: usize|
                0 <= g < self.objects@.len() ==> (
                #[trigger] self.atomic_object_derivations@[g]@.contains(m) <==> (m
                    < self.attributes@.len() && self.incident(g as usize, m))),
            forall|m: int, g: usize|
                0 <= m < self.attributes@.len() ==> (
                #[trigger] self.atomic_attribute_derivations@[m]@.contains(g) <==> (g
                    < self.objects@.len() && self.incident(g, m as usize))),
    {
        assert forall|g: usize, m: usize| #[trigger] self.incident(g, m) implies g
            < self.objects@.len() && m < self.attributes@.len() by {
            let i = choose|i: int| 0 <= i < self.incidence@.len() && self.incidence@[i] == (g, m);
            assert(self.incidence@[i].0 < self.objects@.len());
        }
    }

    fn construct(
        name: String,
        objects: Vec<T>,
        attributes: Vec<T>,
        incidence: Vec<(usize, usize)>,
    ) -> (r: Self)
        requires
            incidence@.no_duplicates(),
            forall|i: int|
                0 <= i < incidence@.len() ==> #[trigger] incidence@[i].0 < objects@.len()
                    && incidence@[i].1 < attributes@.len(),
        ensures
            r.wf(),
            r.name == name,
            r.objects == objects,
            r.attributes == attributes,
            r.incidence == incidence,
    {
        let mut rows: Vec<BitSet> = Vec::new();
        let mut i: usize = 0;
        while i < objects.len()
            invariant
                i <= objects@.len(),
                rows@.len() == i,
                forall|g: int| 0 <= g < i ==> #[trigger] rows@[g]@ == Set::<usize>::empty(),
            decreases objects@.len() - i,
        {
            rows.push(BitSet::with_capacity(attributes.len()));
            i = i + 1;
        }
        let mut cols: Vec<BitSet> = Vec::new();
        let mut j: usize = 0;
        while j < attributes.len()
            invariant
                j <= attributes@.len(),
                cols@.len() == j,
                forall|m: int| 0 <= m < j ==> #[trigger] cols@[m]@ == Set::<usize>::empty(),
            decreases attributes@.len() - j,
        {
            cols.push(BitSet::with_capacity(objects.len()));
            j = j + 1;
        }
        let n_objects = objects.len();
        let n_attributes = attributes.len();
        let mut k: usize = 0;
        while k < incidence.len()
            invariant
                k <= incidence@.len(),
                rows@.len() == objects@.len(),
                cols@.len() == attributes@.len(),
                objects@.len() <= usize::MAX,
                attributes@.len() <= usize::MAX,
                forall|i: int|
                    0 <= i < incidence@.len() ==> #[trigger] incidence@[i].0 < objects@.len()
                        && incidence@[i].1 < attributes@.len(),
                forall|g: int, m: usize|
                    0 <= g < objects@.len() ==> (#[trigger] rows@[g]@.contains(m) <==> exists|i: int|
                        0 <= i < k && incidence@[i] == (g as usize, m)),
                forall|m: int, g: usize|
                    0 <= m < attributes@.len() ==> (#[trigger] cols@[m]@.contains(g) <==> exists|i: int|
                        0 <= i < k && incidence@[i] == (g, m as usize)),
            decreases incidence@.len() - k,
        {
            let (g, m) = incidence[k];
            assert(incidence@[k as int] == (g, m));
            assert(incidence@[k as int].0 < objects@.len());
            let ghost old_rows = rows@;
            let ghost old_cols = cols@;
            rows[g].insert(m);
            proof {
                lemma_record_pair(old_rows, rows@, incidence@, k as int, g, m, true);
            }
            cols[m].insert(g);
            proof {
                lemma_record_pair(old_cols, cols@, incidence@, k as int, m, g, false);
            }
            k = k + 1;
        }
        let r = FormalContext {
            name,
            objects,
            attributes,
            incidence,
            atomic_object_derivations: rows,
            atomic_attribute_derivations: cols,
        };
        proof {
            assert forall|g: int, m: usize| 0 <= g < r.objects@.len() implies (
            #[trigger] r.atomic_object_derivations@[g]@.contains(m) <==> (m < r.attributes@.len()
                && r.incident(g as usize, m))) by {
                if r.incident(g as usize, m) {
                    let i = choose|i: int| 0 <= i < r.incidence@.len() && r.incidence@[i] == (g as usize, m);
                    assert(r.incidence@[i].0 < r.objects@.len());
                    assert(r.incidence@[i].1 < r.attributes@.len());
                }
            }
            assert forall|m: int, g: usize| 0 <= m < r.attributes@.len() implies (
            #[trigger] r.atomic_attribute_derivations@[m]@.contains(g) <==> (g < r.objects@.len()
                && r.incident(g, m as usize))) by {
                if r.incident(g, m as usize) {
                    let i = choose|i: int| 0 <= i < r.incidence@.len() && r.incidence@[i] == (g, m as usize);
                    assert(r.incidence@[i].0 < r.objects@.len());
                }
            }
        }
        r
    }

    /// Creates an empty formal context.
    pub fn new() -> (r: Self)
        ensures
            r.wf(),
            r.name@ == Seq::<char>::empty(),
            r.objects@.len() == 0,
            r.attributes@.len() == 0,
            r.incidence@.len() == 0,
    {
        FormalContext::construct(String::new(), Vec::new(), Vec::new(), Vec::new())
    }
}

// ---- the Burmeister format -------------------------------------------------

/// Why a context file could not be read, without the payload of the error.
pub enum CxtError {
    /// A line is missing, or the file does not start with `B`.
    InvalidFormat,
    /// A line is not valid UTF-8.
    NotUtf8,
    /// A count in the header is not a decimal number.
    BadNumber,
}

/// The parts of a context file that `FormalContext::from` reads.
pub struct CxtTable {
    pub name: Seq<char>,
    pub objects: Seq<Seq<char>>,
    pub attributes: Seq<Seq<char>>,
    pub rows: Seq<Seq<char>>,
}

/// Line `i` exists and is valid UTF-8.
pub open spec fn readable(lines: Seq<Seq<u8>>, i: int) -> bool {
    0 <= i < lines.len() && valid_utf8(lines[i])
}

/// The text of line `i`.
pub open spec fn text_of(lines: Seq<Seq<u8>>, i: int) -> Seq<char> {
    decode_utf8(lines[i])
}

/// The first line in `from..to` that cannot be read, or `to`.
pub open spec fn first_unreadable(lines: Seq<Seq<u8>>, from: int, to: int) -> int
    decreases to - from,
{
    if from >= to {
        to
    } else if !readable(lines, from) {
        from
    } else {
        first_unreadable(lines, from + 1, to)
    }
}

/// The error that reading line `i` reports, when it cannot be read.
pub open spec fn read_error(lines: Seq<Seq<u8>>, i: int) -> CxtError {
    if 0 <= i < lines.len() {
        CxtError::NotUtf8
    } else {
        CxtError::InvalidFormat
    }
}

/// What a Burmeister file says, line by line: `B`, the name, the number of
/// objects and of attributes, an empty line, the object names, the attribute
/// names, and one row per object. The lines are read in that order, and the
/// first that cannot be read or understood decides the error.
pub open spec fn cxt_spec(bytes: Seq<u8>) -> Result<CxtTable, CxtError> {
    let lines = lines_of(bytes, 10u8, 13u8);
    if !readable(lines, 0) {
        Err(read_error(lines, 0))
    } else if text_of(lines, 0) != seq!['B'] {
        Err(CxtError::InvalidFormat)
    } else if !readable(lines, 1) {
        Err(read_error(lines, 1))
    } else if !readable(lines, 2) {
        Err(read_error(lines, 2))
    } else if parse_usize_spec(text_of(lines, 2)) is None {
        Err(CxtError::BadNumber)
    } else if !readable(lines, 3) {
        Err(read_error(lines, 3))
    } else if parse_usize_spec(text_of(lines, 3)) is None {
        Err(CxtError::BadNumber)
    } else {
        let oc = parse_usize_spec(text_of(lines, 2)).unwrap() as int;
        let ac = parse_usize_spec(text_of(lines, 3)).unwrap() as int;
        let end = 5 + 2 * oc + ac;
        let bad = first_unreadable(lines, 4, end);
        if bad < end {
            Err(read_error(lines, bad))
        } else {
            Ok(
                CxtTable {
                    name: text_of(lines, 1),
                    objects: Seq::new(oc as nat, |i: int| text_of(lines, 5 + i)),
                    attributes: Seq::new(ac as nat, |j: int| text_of(lines, 5 + oc + j)),
                    rows: Seq::new(oc as nat, |g: int| text_of(lines, 5 + oc + ac + g)),
                },
            )
        }
    }
}

/// Row `g` marks column `m` with `X` or `x`.
pub open spec fn cxt_cross(rows: Seq<Seq<char>>, g: int, m: int) -> bool {
    0 <= g < rows.len() && 0 <= m < rows[g].len() && (rows[g][m] == 'X' || rows[g][m] == 'x')
}

/// Every cross of the table lies in a column that has an attribute.
pub open spec fn cxt_crosses_fit(bytes: Seq<u8>) -> bool {
    match cxt_spec(bytes) {
        Ok(t) => forall|g: int, m: int| cxt_cross(t.rows, g, m) ==> m < t.attributes.len(),
        Err(_) => true,
    }
}

/// The first four lines are the header `cxt_spec` accepts, with `oc`
/// objects and `ac` attributes.
pub open spec fn header_ok(lines: Seq<Seq<u8>>, oc: usize, ac: usize) -> bool {
    &&& readable(lines, 0)
    &&& text_of(lines, 0) == seq!['B']
    &&& readable(lines, 1)
    &&& readable(lines, 2)
    &&& parse_usize_spec(text_of(lines, 2)) == Some(oc)
    &&& readable(lines, 3)
    &&& parse_usize_spec(text_of(lines, 3)) == Some(ac)
}

proof fn lemma_first_unreadable_skip(lines: Seq<Seq<u8>>, from: int, k: int, to: int)
    requires
        from <= k <= to,
        forall|j: int| from <= j < k ==> readable(lines, j),
    ensures
        first_unreadable(lines, from, to) == first_unreadable(lines, k, to),
    decreases k - from,
{
    if from < k {
        lemma_first_unreadable_skip(lines, from + 1, k, to);
    }
}

/// Reads line `i`: its characters, or the error `BufRead::lines` would give.
fn read_line(lines: &Vec<Vec<u8>>, i: usize, Ghost(contents): Ghost<Seq<u8>>) -> (r: Result<Vec<char>, FormatError>)
    requires
        lines@.map_values(|l: Vec<u8>| l@) == lines_of(contents, 10u8, 13u8),
    ensures
        match r {
            Ok(text) => readable(lines@.map_values(|l: Vec<u8>| l@), i as int) && text@ == text_of(
                lines@.map_values(|l: Vec<u8>| l@),
                i as int,
            ),
            Err(FormatError::InvalidFormat) => i >= lines@.len(),
            Err(FormatError::IoError(_)) => i < lines@.len() && !valid_utf8(lines@[i as int]@),
            Err(FormatError::ParseError(_)) => false,
        },
{
    if i >= lines.len() {
        return Err(FormatError::InvalidFormat);
    }
    match utf8_chars(lines[i].as_slice()) {
        Some(text) => Ok(text),
        None => {
            proof {
                lemma_lines_no_newline(contents);
                let ls = lines@.map_values(|l: Vec<u8>| l@);
                assert forall|j: int| 0 <= j < lines@[i as int]@.len() implies lines@[i as int]@[j] != 10u8 by {
                    assert(ls[i as int] == lines@[i as int]@);
                    assert(lines_of(contents, 10u8, 13u8)[i as int][j] != 10u8);
                }
            }
            Err(FormatError::IoError(invalid_line_error(lines[i].as_slice())))
        },
    }
}

/// The error of `read_line` is the one the format prescribes.
pub open spec fn error_matches(e: FormatError, k: CxtError) -> bool {
    match e {
        FormatError::IoError(_) => k is NotUtf8,
        FormatError::ParseError(_) => k is BadNumber,
        FormatError::InvalidFormat => k is InvalidFormat,
    }
}

/// The crosses of `row`, read as the row of object `g`, among its first `m`
/// marks, in column order.
pub open spec fn row_pairs(row: Seq<char>, g: usize, m: nat) -> Seq<(usize, usize)>
    decreases m,
{
    if m == 0 || m > row.len() {
        Seq::empty()
    } else {
        let before = row_pairs(row, g, (m - 1) as nat);
        if row[m - 1] == 'X' || row[m - 1] == 'x' {
            before.push((g, (m - 1) as usize))
        } else {
            before
        }
    }
}

/// The crosses of the first `g` rows, row by row.
pub open spec fn table_pairs(rows: Seq<Seq<char>>, g: nat) -> Seq<(usize, usize)>
    decreases g,
{
    if g == 0 || g > rows.len() {
        Seq::empty()
    } else {
        table_pairs(rows, (g - 1) as nat) + row_pairs(
            rows[g - 1],
            (g - 1) as usize,
            rows[g - 1].len(),
        )
    }
}

/// Pair `p` comes strictly before pair `q`, row first.
pub open spec fn pair_lt(p: (usize, usize), q: (usize, usize)) -> bool {
    p.0 < q.0 || (p.0 == q.0 && p.1 < q.1)
}

proof fn lemma_row_pairs(row: Seq<char>, g: usize, m: nat)
    requires
        m <= row.len(),
        row.len() <= usize::MAX,
    ensures
        forall|x: int|
            0 <= x < row_pairs(row, g, m).len() ==> (#[trigger] row_pairs(row, g, m)[x]).0 == g
                && row_pairs(row, g, m)[x].1 < m,
        forall|x: int, y: int|
            0 <= x < y < row_pairs(row, g, m).len() ==> #[trigger] row_pairs(row, g, m)[x].1
                < #[trigger] row_pairs(row, g, m)[y].1,
        forall|b: usize|
            #[trigger] row_pairs(row, g, m).contains((g, b)) <==> (b < m && (row[b as int] == 'X'
                || row[b as int] == 'x')),
    decreases m,
{
    if m > 0 {
        lemma_row_pairs(row, g, (m - 1) as nat);
        let before = row_pairs(row, g, (m - 1) as nat);
        let now = row_pairs(row, g, m);
        assert forall|b: usize| #[trigger] now.contains((g, b)) <==> (b < m && (row[b as int] == 'X'
            || row[b as int] == 'x')) by {
            if now.contains((g, b)) {
                let x = choose|x: int| 0 <= x < now.len() && now[x] == (g, b);
                if x < before.len() {
                    assert(before[x] == (g, b));
                    assert(before.contains((g, b)));
                }
            }
            if b < m - 1 && (row[b as int] == 'X' || row[b as int] == 'x') {
                assert(before.contains((g, b)));
                let x = choose|x: int| 0 <= x < before.len() && before[x] == (g, b);
                assert(now[x] == (g, b));
            }
            if b == m - 1 && (row[b as int] == 'X' || row[b as int] == 'x') {
                assert(now[before.len() as int] == (g, b));
            }
        }
    }
}

proof fn lemma_table_pairs(rows: Seq<Seq<char>>, g: nat)
    requires
        g <= rows.len(),
        rows.len() <= usize::MAX,
        forall|x: int| 0 <= x < rows.len() ==> #[trigger] rows[x].len() <= usize::MAX,
    ensures
        forall|x: int|
            0 <= x < table_pairs(rows, g).len() ==> (#[trigger] table_pairs(rows, g)[x]).0 < g,
        forall|x: int, y: int|
            0 <= x < y < table_pairs(rows, g).len() ==> pair_lt(
                #[trigger] table_pairs(rows, g)[x],
                #[trigger] table_pairs(rows, g)[y],
            ),
        forall|a: usize, b: usize|
            #[trigger] table_pairs(rows, g).contains((a, b)) <==> (a < g && cxt_cross(
                rows,
                a as int,
                b as int,
            )),
    decreases g,
{
    if g > 0 {
        let h = (g - 1) as nat;
        lemma_table_pairs(rows, h);
        let row = rows[h as int];
        lemma_row_pairs(row, h as usize, row.len());
        let before = table_pairs(rows, h);
        let tail = row_pairs(row, h as usize, row.len());
        let now = table_pairs(rows, g);
        assert(now == before + tail);
        assert forall|x: int| 0 <= x < now.len() implies (#[trigger] now[x]).0 < g by {
            if x < before.len() {
                assert(now[x] == before[x]);
            } else {
                assert(now[x] == tail[x - before.len()]);
            }
        }
        assert forall|x: int, y: int| 0 <= x < y < now.len() implies pair_lt(
            #[trigger] now[x],
            #[trigger] now[y],
        ) by {
            if y < before.len() {
                assert(now[x] == before[x] && now[y] == before[y]);
            } else if x < before.len() {
                assert(now[x] == before[x] && now[y] == tail[y - before.len()]);
            } else {
                assert(now[x] == tail[x - before.len()] && now[y] == tail[y - before.len()]);
            }
        }
        assert forall|a: usize, b: usize| #[trigger] now.contains((a, b)) <==> (a < g && cxt_cross(
            rows,
            a as int,
            b as int,
        )) by {
            if now.contains((a, b)) {
                let x = choose|x: int| 0 <= x < now.len() && now[x] == (a, b);
                if x < before.len() {
                    assert(before[x] == (a, b));
                    assert(before.contains((a, b)));
                } else {
                    assert(tail[x - before.len()] == (a, b));
                    assert(tail.contains((a, b)));
                }
            }
            if a < h && cxt_cross(rows, a as int, b as int) {
                assert(before.contains((a, b)));
                let x = choose|x: int| 0 <= x < before.len() && before[x] == (a, b);
                assert(now[x] == (a, b));
            }
            if a == h && cxt_cross(rows, a as int, b as int) {
                assert(tail.contains((a, b)));
                let x = choose|x: int| 0 <= x < tail.len() && tail[x] == (a, b);
                assert(now[before.len() + x] == (a, b));
            }
        }
    }
}

/// The crosses of a table, row by row and in column order within a row.
fn crosses_of(rows: &Vec<Vec<char>>) -> (r: Vec<(usize, usize)>)
    ensures
        r@ == table_pairs(rows@.map_values(|x: Vec<char>| x@), rows@.len()),
{
    let ghost rv = rows@.map_values(|x: Vec<char>| x@);
    let mut out: Vec<(usize, usize)> = Vec::new();
    let mut g: usize = 0;
    while g < rows.len()
        invariant
            rv == rows@.map_values(|x: Vec<char>| x@),
            g <= rows@.len(),
            out@ == table_pairs(rv, g as nat),
        decreases rows@.len() - g,
    {
        let row = &rows[g];
        assert(row@ == rv[g as int]);
        let mut m: usize = 0;
        while m < row.len()
            invariant
                rv == rows@.map_values(|x: Vec<char>| x@),
                g < rows@.len(),
                row@ == rv[g as int],
                m <= row@.len(),
                out@ == table_pairs(rv, g as nat) + row_pairs(row@, g, m as nat),
            decreases row@.len() - m,
        {
            let c = row[m];
            if c == 'X' || c == 'x' {
                out.push((g, m));
            }
            proof {
                assert(row_pairs(row@, g, (m + 1) as nat) == if c == 'X' || c == 'x' {
                    row_pairs(row@, g, m as nat).push((g, m))
                } else {
                    row_pairs(row@, g, m as nat)
                });
            }
            m = m + 1;
        }
        assert(table_pairs(rv, (g + 1) as nat) == table_pairs(rv, g as nat) + row_pairs(
            rv[g as int],
            g,
            rv[g as int].len(),
        ));
        g = g + 1;
    }
    out
}

/// The table read from a file's name, object and attribute names, and rows.
pub open spec fn table_view(name: Seq<char>, objects: Seq<String>, attributes: Seq<String>, rows: Seq<Vec<char>>) -> CxtTable {
    CxtTable {
        name: name,
        objects: objects.map_values(|s: String| s@),
        attributes: attributes.map_values(|s: String| s@),
        rows: rows.map_values(|x: Vec<char>| x@),
    }
}

/// Reads the table a Burmeister file holds: its name, the object and
/// attribute names and the rows, or the error of the first line that is
/// missing, not UTF-8 or not understood.
fn read_table(contents: &[u8]) -> (r: Result<(Vec<char>, Vec<String>, Vec<String>, Vec<Vec<char>>), FormatError>)
    ensures
        match r {
            Ok((name, objects, attributes, rows)) => {
                &&& cxt_spec(contents@) == Ok::<CxtTable, CxtError>(table_view(name@, objects@, attributes@, rows@))
                &&& objects@.len() == rows@.len()
            },
            Err(e) => match cxt_spec(contents@) {
                Ok(_) => false,
                Err(k) => error_matches(e, k),
            },
        },
{
    let lines = byte_lines(contents);
    let ghost ls = lines@.map_values(|l: Vec<u8>| l@);
    assert(ls == lines_of(contents@, 10u8, 13u8));
    let first = match read_line(&lines, 0, Ghost(contents@)) {
        Ok(t) => t,
        Err(e) => return Err(e),
    };
    if !(first.len() == 1 && first[0] == 'B') {
        assert(first@ != seq!['B']);
        return Err(FormatError::InvalidFormat);
    }
    assert(first@ == seq!['B']);
    let name_chars = match read_line(&lines, 1, Ghost(contents@)) {
        Ok(t) => t,
        Err(e) => return Err(e),
    };
    let oc_chars = match read_line(&lines, 2, Ghost(contents@)) {
        Ok(t) => t,
        Err(e) => return Err(e),
    };
    let object_count = match parse_usize(&chars_to_string(oc_chars.as_slice())) {
        Ok(v) => v,
        Err(e) => return Err(FormatError::ParseError(e)),
    };
    let ac_chars = match read_line(&lines, 3, Ghost(contents@)) {
        Ok(t) => t,
        Err(e) => return Err(e),
    };
    let attribute_count = match parse_usize(&chars_to_string(ac_chars.as_slice())) {
        Ok(v) => v,
        Err(e) => return Err(FormatError::ParseError(e)),
    };
    let ghost oc = object_count as int;
    let ghost ac = attribute_count as int;
    let ghost end = 5 + 2 * oc + ac;
    match read_line(&lines, 4, Ghost(contents@)) {
        Ok(_) => {},
        Err(e) => {
            proof {
                assert(first_unreadable(ls, 4, end) == 4);
            }
            return Err(e);
        },
    }
    let nlines = lines.len();
    assert(header_ok(ls, object_count, attribute_count));
    let mut cur: usize = 5;
    let mut objects: Vec<String> = Vec::new();
    let mut i: usize = 0;
    while i < object_count
        invariant
            ls == lines@.map_values(|l: Vec<u8>| l@),
            ls == lines_of(contents@, 10u8, 13u8),
            header_ok(ls, object_count, attribute_count),
            nlines == lines@.len(),
            ac == attribute_count,
            i <= object_count,
            cur == 5 + i,
            end == 5 + 2 * oc + ac,
            oc == object_count,
            forall|j: int| 4 <= j < cur ==> readable(ls, j),
            objects@.len() == i,
            forall|j: int| 0 <= j < i ==> #[trigger] objects@[j]@ == text_of(ls, 5 + j),
        decreases object_count - i,
    {
        let t = match read_line(&lines, cur, Ghost(contents@)) {
            Ok(t) => t,
            Err(e) => {
                proof {
                    lemma_first_unreadable_skip(ls, 4, cur as int, end);
                }
                return Err(e);
            },
        };
        objects.push(chars_to_string(t.as_slice()));
        assert(cur < nlines);
        cur = cur + 1;
        i = i + 1;
    }
    let mut attributes: Vec<String> = Vec::new();
    let mut j: usize = 0;
    while j < attribute_count
        invariant
            ls == lines@.map_values(|l: Vec<u8>| l@),
            ls == lines_of(contents@, 10u8, 13u8),
            header_ok(ls, object_count, attribute_count),
            nlines == lines@.len(),
            j <= attribute_count,
            cur == 5 + oc + j,
            end == 5 + 2 * oc + ac,
            oc == object_count,
            ac == attribute_count,
            forall|x: int| 4 <= x < cur ==> readable(ls, x),
            attributes@.len() == j,
            forall|x: int| 0 <= x < j ==> #[trigger] attributes@[x]@ == text_of(ls, 5 + oc + x),
        decreases attribute_count - j,
    {
        let t = match read_line(&lines, cur, Ghost(contents@)) {
            Ok(t) => t,
            Err(e) => {
                proof {
                    lemma_first_unreadable_skip(ls, 4, cur as int, end);
                }
                return Err(e);
            },
        };
        attributes.push(chars_to_string(t.as_slice()));
        assert(cur < nlines);
        cur = cur + 1;
        j = j + 1;
    }
    // Read every row before interpreting any, so that a missing row
    // reports its error first.
    let mut rows: Vec<Vec<char>> = Vec::new();
    let mut g: usize = 0;
    while g < object_count
        invariant
            ls == lines@.map_values(|l: Vec<u8>| l@),
            ls == lines_of(contents@, 10u8, 13u8),
            header_ok(ls, object_count, attribute_count),
            nlines == lines@.len(),
            g <= object_count,
            cur == 5 + oc + ac + g,
            end == 5 + 2 * oc + ac,
            oc == object_count,
            ac == attribute_count,
            forall|x: int| 4 <= x < cur ==> readable(ls, x),
            rows@.len() == g,
            forall|x: int| 0 <= x < g ==> #[trigger] rows@[x]@ == text_of(ls, 5 + oc + ac + x),
        decreases object_count - g,
    {
        let t = match read_line(&lines, cur, Ghost(contents@)) {
            Ok(t) => t,
            Err(e) => {
                proof {
                    lemma_first_unreadable_skip(ls, 4, cur as int, end);
                }
                return Err(e);
            },
        };
        rows.push(t);
        assert(cur < nlines);
        cur = cur + 1;
        g = g + 1;
    }
    proof {
        lemma_first_unreadable_skip(ls, 4, end, end);
    }
    let ghost table = CxtTable {
        name: text_of(ls, 1),
        objects: Seq::new(oc as nat, |i: int| text_of(ls, 5 + i)),
        attributes: Seq::new(ac as nat, |j: int| text_of(ls, 5 + oc + j)),
        rows: Seq::new(oc as nat, |g: int| text_of(ls, 5 + oc + ac + g)),
    };
    proof {
        assert(cxt_spec(contents@) == Ok::<CxtTable, CxtError>(table));
        assert(objects@.map_values(|s: String| s@) =~= table.objects);
        assert(attributes@.map_values(|s: String| s@) =~= table.attributes);
        assert(rows@.map_values(|x: Vec<char>| x@) =~= table.rows);
        assert(table_view(name_chars@, objects@, attributes@, rows@) == table);
    }
    Ok((name_chars, objects, attributes, rows))
}

/// Every cross of the table a file holds lies in a column that has an
/// attribute, as [`FormalContext::from`] asks of its input; true of a file
/// it rejects.
pub fn crosses_fit(contents: &[u8]) -> (r: bool)
    ensures
        r == cxt_crosses_fit(contents@),
{
    match read_table(contents) {
        Err(_) => true,
        Ok((name, objects, attributes, rows)) => {
            let ghost t = table_view(name@, objects@, attributes@, rows@);
            let ghost rv = rows@.map_values(|x: Vec<char>| x@);
            let n = attributes.len();
            assert(attributes@.map_values(|s: String| s@).len() == n);
            let mut g: usize = 0;
            while g < rows.len()
                invariant
                    rv == rows@.map_values(|x: Vec<char>| x@),
                    t.rows == rv,
                    t.attributes.len() == n,
                    cxt_spec(contents@) == Ok::<CxtTable, CxtError>(t),
                    g <= rows@.len(),
                    forall|a: int, b: int| 0 <= a < g && cxt_cross(rv, a, b) ==> b < n,
                decreases rows@.len() - g,
            {
                let row = &rows[g];
                assert(row@ == rv[g as int]);
                let mut m: usize = n;
                while m < row.len()
                    invariant
                        rv == rows@.map_values(|x: Vec<char>| x@),
                        t.rows == rv,
                        t.attributes.len() == n,
                        cxt_spec(contents@) == Ok::<CxtTable, CxtError>(t),
                        g < rows@.len(),
                        row@ == rv[g as int],
                        n <= m,
                        forall|b: int| n <= b < m ==> !cxt_cross(rv, g as int, b),
                        forall|a: int, b: int| 0 <= a < g && cxt_cross(rv, a, b) ==> b < n,
                    decreases row@.len() - m,
                {
                    if row[m] == 'X' || row[m] == 'x' {
                        assert(cxt_cross(t.rows, g as int, m as int));
                        assert(!(m < t.attributes.len()));
                        assert(!cxt_crosses_fit(contents@)) by {
                            let tt = cxt_spec(contents@)->Ok_0;
                            assert(tt == t);
                            assert(cxt_cross(tt.rows, g as int, m as int));
                        }
                        return false;
                    }
                    m = m + 1;
                }
                g = g + 1;
            }
            assert(forall|a: int, b: int| cxt_cross(t.rows, a, b) ==> b < t.attributes.len());
            true
        },
    }
}

impl<T> FormalContext<T> {
    /// Reads a formal context in Burmeister format (`.cxt`).
    ///
    /// Returns the error of the first line that is missing, not UTF-8 or not
    /// understood; see [`cxt_spec`]. A file that is otherwise well formed but
    /// marks a cross beyond the last attribute is refused as invalid.
    pub fn from(contents: &[u8]) -> (r: Result<FormalContext<String>, FormatError>)
        ensures
            !cxt_crosses_fit(contents@) ==> r matches Err(FormatError::InvalidFormat),
            cxt_crosses_fit(contents@) ==> match r {
                Ok(ctx) => match cxt_spec(contents@) {
                    Ok(t) => {
                        &&& ctx.wf()
                        &&& ctx.name@ == t.name
                        &&& ctx.objects@.map_values(|s: String| s@) == t.objects
                        &&& ctx.attributes@.map_values(|s: String| s@) == t.attributes
                        &&& forall|g: usize, m: usize|
                            ctx.incident(g, m) <==> cxt_cross(t.rows, g as int, m as int)
                    },
                    Err(_) => false,
                },
                Err(e) => match cxt_spec(contents@) {
                    Ok(_) => false,
                    Err(k) => error_matches(e, k),
                },
            },
    {
        if !crosses_fit(contents) {
            return Err(FormatError::InvalidFormat);
        }
        let (name_chars, objects, attributes, rows) = match read_table(contents) {
            Ok(t) => t,
            Err(e) => return Err(e),
        };
        let ghost table = table_view(name_chars@, objects@, attributes@, rows@);
        let object_count = objects.len();
        let attribute_count = attributes.len();
        assert(forall|a: int, b: int| cxt_cross(table.rows, a, b) ==> b < table.attributes.len()) by {
            let t = cxt_spec(contents@)->Ok_0;
            assert(t == table);
            assert(cxt_crosses_fit(contents@));
        }
        let incidence = crosses_of(&rows);
        proof {
            let rv = rows@.map_values(|r: Vec<char>| r@);
            assert(rv == table.rows);
            assert forall|x: int| 0 <= x < rv.len() implies #[trigger] rv[x].len() <= usize::MAX by {
                assert(rv[x] == rows@[x]@);
                assert(rows@[x].len() == rv[x].len());
            }
            lemma_table_pairs(table.rows, object_count as nat);
            assert forall|x: int| 0 <= x < incidence@.len() implies #[trigger] incidence@[x].0
                < object_count && incidence@[x].1 < attribute_count by {
                let (a, b) = incidence@[x];
                assert(incidence@.contains((a, b)));
                assert(cxt_cross(table.rows, a as int, b as int));
            }
            assert forall|x: int, y: int|
                0 <= x < incidence@.len() && 0 <= y < incidence@.len() && x != y implies incidence@[x]
                != incidence@[y] by {
                if x < y {
                    assert(pair_lt(incidence@[x], incidence@[y]));
                } else {
                    assert(pair_lt(incidence@[y], incidence@[x]));
                }
            }
            assert(incidence@.no_duplicates());
        }
        let ctx = FormalContext::construct(
            chars_to_string(name_chars.as_slice()),
            objects,
            attributes,
            incidence,
        );
        proof {
            assert(ctx.objects@.map_values(|s: String| s@) == table.objects);
            assert(ctx.attributes@.map_values(|s: String| s@) == table.attributes);
        }
        Ok(ctx)
    }
}


// ---- writing the Burmeister format ------------------------------------------

/// Row `g` as the format writes it: `X` under each attribute object `g` has,
/// `.` under the others.
pub open spec fn cxt_row<T>(ctx: FormalContext<T>, g: int) -> Seq<char> {
    Seq::new(
        ctx.attributes@.len(),
        |m: int|
            if ctx.incident(g as usize, m as usize) {
                'X'
            } else {
                '.'
            },
    )
}

/// The header of a context file: `B`, the name, the two counts and an empty
/// line.
pub open spec fn cxt_header(ctx: FormalContext<String>) -> Seq<Seq<u8>> {
    seq![
        encode_utf8(seq!['B']),
        encode_utf8(ctx.name@),
        encode_utf8(dec_chars(ctx.objects@.len())),
        encode_utf8(dec_chars(ctx.attributes@.len())),
        encode_utf8(Seq::<char>::empty()),
    ]
}

/// The lines of a context in Burmeister format, each still without its
/// newline: the header, the object names, the attribute names and one row
/// per object.
pub open spec fn cxt_lines(ctx: FormalContext<String>) -> Seq<Seq<u8>> {
    cxt_header(ctx) + Seq::new(ctx.objects@.len(), |i: int| encode_utf8(ctx.objects@[i]@)) + Seq::new(
        ctx.attributes@.len(),
        |j: int| encode_utf8(ctx.attributes@[j]@),
    ) + Seq::new(ctx.objects@.len(), |g: int| encode_utf8(cxt_row(ctx, g)))
}

/// The bytes of a context in Burmeister format.
pub open spec fn cxt_bytes(ctx: FormalContext<String>) -> Seq<u8> {
    join_lines(cxt_lines(ctx))
}

/// The rows a reader finds in the bytes `cxt_bytes` writes.
pub open spec fn cxt_rows(ctx: FormalContext<String>) -> Seq<Seq<char>> {
    Seq::new(ctx.objects@.len(), |g: int| cxt_row(ctx, g))
}

/// Every name of the context fits on one line of the file.
pub open spec fn cxt_names_plain(ctx: FormalContext<String>) -> bool {
    &&& plain_text(ctx.name@)
    &&& forall|i: int| 0 <= i < ctx.objects@.len() ==> plain_text(#[trigger] ctx.objects@[i]@)
    &&& forall|j: int| 0 <= j < ctx.attributes@.len() ==> plain_text(#[trigger] ctx.attributes@[j]@)
}

proof fn lemma_join_take(lines: Seq<Seq<u8>>, k: int)
    requires
        0 <= k < lines.len(),
    ensures
        join_lines(lines.take(k + 1)) == join_lines(lines.take(k)) + lines[k] + seq![10u8],
{
    assert(lines.take(k + 1) =~= lines.take(k).push(lines[k]));
    lemma_join_lines_push(lines.take(k), lines[k]);
}

impl FormalContext<String> {
    /// Serialises this context into Burmeister format (`.cxt`) bytes.
    pub fn to_cxt_bytes(&self) -> (r: Vec<u8>)
        requires
            self.wf(),
        ensures
            r@ == cxt_bytes(*self),
    {
        let ghost lines = cxt_lines(*self);
        let n = self.objects.len();
        let k = self.attributes.len();
        let mut out: Vec<u8> = Vec::new();
        assert(lines.take(0) =~= Seq::<Seq<u8>>::empty());
        let b_line = vec!['B'];
        assert(is_ascii_chars(b_line@));
        let b = ascii_bytes(b_line.as_slice());
        assert(b_line@ =~= seq!['B']);
        push_line(&mut out, b.as_slice());
        proof {
            lemma_join_take(lines, 0);
        }
        push_line(&mut out, self.name.as_str().as_bytes());
        proof {
            lemma_join_take(lines, 1);
        }
        proof {
            lemma_dec_chars(n as nat);
            lemma_dec_chars(k as nat);
        }
        let n_digits = decimal_chars(n);
        let n_bytes = ascii_bytes(n_digits.as_slice());
        push_line(&mut out, n_bytes.as_slice());
        proof {
            lemma_join_take(lines, 2);
        }
        let k_digits = decimal_chars(k);
        let k_bytes = ascii_bytes(k_digits.as_slice());
        push_line(&mut out, k_bytes.as_slice());
        proof {
            lemma_join_take(lines, 3);
        }
        let empty: Vec<char> = Vec::new();
        assert(is_ascii_chars(empty@));
        let e = ascii_bytes(empty.as_slice());
        push_line(&mut out, e.as_slice());
        proof {
            lemma_join_take(lines, 4);
        }
        let mut i: usize = 0;
        while i < n
            invariant
                lines == cxt_lines(*self),
                n == self.objects@.len(),
                k == self.attributes@.len(),
                i <= n,
                out@ == join_lines(lines.take(5 + i)),
            decreases n - i,
        {
            push_line(&mut out, self.objects[i].as_str().as_bytes());
            proof {
                assert(lines[5 + i] == encode_utf8(self.objects@[i as int]@));
                lemma_join_take(lines, 5 + i);
            }
            i = i + 1;
        }
        let mut j: usize = 0;
        while j < k
            invariant
                lines == cxt_lines(*self),
                n == self.objects@.len(),
                k == self.attributes@.len(),
                j <= k,
                out@ == join_lines(lines.take(5 + n + j)),
            decreases k - j,
        {
            push_line(&mut out, self.attributes[j].as_str().as_bytes());
            proof {
                assert(lines[5 + n + j] == encode_utf8(self.attributes@[j as int]@));
                lemma_join_take(lines, 5 + n + j);
            }
            j = j + 1;
        }
        let mut g: usize = 0;
        while g < n
            invariant
                self.wf(),
                lines == cxt_lines(*self),
                n == self.objects@.len(),
                k == self.attributes@.len(),
                g <= n,
                out@ == join_lines(lines.take(5 + n + k + g)),
            decreases n - g,
        {
            let row_set = &self.atomic_object_derivations[g];
            let mut row: Vec<char> = Vec::new();
            let mut m: usize = 0;
            while m < k
                invariant
                    self.wf(),
                    g < n,
                    n == self.objects@.len(),
                    k == self.attributes@.len(),
                    *row_set == self.atomic_object_derivations@[g as int],
                    m <= k,
                    row@ == cxt_row(*self, g as int).take(m as int),
                decreases k - m,
            {
                assert(self.atomic_object_derivations@[g as int]@.contains(m) <==> self.incident(g, m));
                let c = if row_set.contains(m) {
                    'X'
                } else {
                    '.'
                };
                row.push(c);
                assert(row@ =~= cxt_row(*self, g as int).take(m + 1));
                m = m + 1;
            }
            assert(row@ =~= cxt_row(*self, g as int));
            assert(is_ascii_chars(row@));
            let row_bytes = ascii_bytes(row.as_slice());
            push_line(&mut out, row_bytes.as_slice());
            proof {
                assert(lines[5 + n + k + g] == encode_utf8(cxt_row(*self, g as int)));
                lemma_join_take(lines, 5 + n + k + g);
            }
            g = g + 1;
        }
        assert(lines.take(5 + n + k + n) =~= lines);
        out
    }
}

/// Every line `cxt_lines` writes is valid UTF-8 and fits on one line.
proof fn lemma_cxt_lines_plain(ctx: FormalContext<String>)
    requires
        ctx.wf(),
        cxt_names_plain(ctx),
        ctx.objects@.len() <= usize::MAX,
        ctx.attributes@.len() <= usize::MAX,
    ensures
        forall|i: int|
            0 <= i < cxt_lines(ctx).len() ==> valid_utf8(#[trigger] cxt_lines(ctx)[i]) && plain_line(
                cxt_lines(ctx)[i],
            ),
{
    broadcast use vstd::utf8::encode_utf8_valid_utf8;

    let n = ctx.objects@.len();
    let k = ctx.attributes@.len();
    let lines = cxt_lines(ctx);
    lemma_dec_chars(n);
    lemma_dec_chars(k);
    assert(plain_text(seq!['B']));
    assert(plain_text(Seq::<char>::empty()));
    assert forall|c: nat| c <= usize::MAX implies #[trigger] plain_text(dec_chars(c)) by {
        lemma_dec_chars(c);
        let d = dec_chars(c);
        assert forall|j: int| 0 <= j < d.len() implies #[trigger] d[j] != '\n' by {
            assert(crate::text::is_digit(d[j]));
        }
        assert(crate::text::is_digit(d[d.len() - 1]));
    }
    assert forall|i: int| 0 <= i < 5 implies valid_utf8(#[trigger] lines[i]) && plain_line(lines[i]) by {
        assert(lines[i] == cxt_header(ctx)[i]);
        lemma_plain_text_encodes_plain(seq!['B']);
        lemma_plain_text_encodes_plain(ctx.name@);
        lemma_plain_text_encodes_plain(dec_chars(n));
        lemma_plain_text_encodes_plain(dec_chars(k));
        lemma_plain_text_encodes_plain(Seq::<char>::empty());
    }
    assert forall|i: int| 5 <= i < 5 + n implies valid_utf8(#[trigger] lines[i]) && plain_line(lines[i]) by {
        assert(lines[i] == encode_utf8(ctx.objects@[i - 5]@));
        lemma_plain_text_encodes_plain(ctx.objects@[i - 5]@);
    }
    assert forall|i: int| 5 + n <= i < 5 + n + k implies valid_utf8(#[trigger] lines[i]) && plain_line(
        lines[i],
    ) by {
        assert(lines[i] == encode_utf8(ctx.attributes@[i - 5 - n]@));
        lemma_plain_text_encodes_plain(ctx.attributes@[i - 5 - n]@);
    }
    assert forall|i: int| 5 + n + k <= i < lines.len() implies valid_utf8(#[trigger] lines[i])
        && plain_line(lines[i]) by {
        let row = cxt_row(ctx, i - 5 - n - k);
        assert(lines[i] == encode_utf8(row));
        assert forall|j: int| 0 <= j < row.len() implies #[trigger] row[j] != '\n' by {}
        lemma_plain_text_encodes_plain(row);
    }
}

/// Writing a context in Burmeister format and reading the bytes back gives
/// its name, objects, attributes and crosses back, provided every name fits
/// on one line: it holds no newline and does not end in a carriage return.
pub proof fn lemma_cxt_round_trip(ctx: FormalContext<String>)
    requires
        ctx.wf(),
        cxt_names_plain(ctx),
        ctx.objects@.len() <= usize::MAX,
        ctx.attributes@.len() <= usize::MAX,
    ensures
        cxt_crosses_fit(cxt_bytes(ctx)),
        cxt_spec(cxt_bytes(ctx)) == Ok::<CxtTable, CxtError>(
            CxtTable {
                name: ctx.name@,
                objects: ctx.objects@.map_values(|s: String| s@),
                attributes: ctx.attributes@.map_values(|s: String| s@),
                rows: cxt_rows(ctx),
            },
        ),
        forall|g: usize, m: usize| #[trigger]
            ctx.incident(g, m) <==> cxt_cross(cxt_rows(ctx), g as int, m as int),
{
    broadcast use vstd::utf8::encode_utf8_decode_utf8;

    ctx.lemma_wf();
    let n = ctx.objects@.len();
    let k = ctx.attributes@.len();
    let lines = cxt_lines(ctx);
    let rows = cxt_rows(ctx);
    assert(lines.len() == 5 + 2 * n + k);
    lemma_dec_chars(n);
    lemma_dec_chars(k);
    lemma_cxt_lines_plain(ctx);
    lemma_lines_of_join(lines);
    let ls = lines_of(cxt_bytes(ctx), 10u8, 13u8);
    assert(ls == lines);
    assert(lines[0] == encode_utf8(seq!['B']));
    assert(lines[1] == encode_utf8(ctx.name@));
    assert(lines[2] == encode_utf8(dec_chars(n)));
    assert(lines[3] == encode_utf8(dec_chars(k)));
    assert(text_of(ls, 0) == seq!['B']);
    assert(text_of(ls, 1) == ctx.name@);
    assert(text_of(ls, 2) == dec_chars(n));
    assert(text_of(ls, 3) == dec_chars(k));
    let end: int = (5 + 2 * n + k) as int;
    assert forall|j: int| 4 <= j < end implies readable(ls, j) by {
        assert(valid_utf8(lines[j]));
    }
    lemma_first_unreadable_skip(ls, 4, end, end);
    let objs = Seq::new(n, |i: int| text_of(ls, 5 + i));
    assert(objs =~= ctx.objects@.map_values(|s: String| s@)) by {
        assert forall|i: int| 0 <= i < n implies objs[i] == ctx.objects@.map_values(|s: String| s@)[i] by {
            assert(lines[5 + i] == encode_utf8(ctx.objects@[i]@));
        }
    }
    let atts = Seq::new(k, |j: int| text_of(ls, 5 + n + j));
    assert(atts =~= ctx.attributes@.map_values(|s: String| s@)) by {
        assert forall|j: int| 0 <= j < k implies atts[j] == ctx.attributes@.map_values(|s: String| s@)[j] by {
            assert(lines[5 + n + j] == encode_utf8(ctx.attributes@[j]@));
        }
    }
    let rs = Seq::new(n, |g: int| text_of(ls, 5 + n + k + g));
    assert(rs =~= rows) by {
        assert forall|g: int| 0 <= g < n implies rs[g] == rows[g] by {
            assert(lines[5 + n + k + g] == encode_utf8(cxt_row(ctx, g)));
        }
    }
    assert forall|g: usize, m: usize| #[trigger]
        ctx.incident(g, m) <==> cxt_cross(rows, g as int, m as int) by {
        if ctx.incident(g, m) {
            assert(rows[g as int][m as int] == 'X');
        }
        if cxt_cross(rows, g as int, m as int) {
            assert(rows[g as int] == cxt_row(ctx, g as int));
        }
    }
}

// ---- derivation operators ---------------------------------------------------

impl<T> FormalContext<T> {
    /// Computes the extent (set of objects) for a given set of attribute indices.
    pub fn index_extent(&self, attributes: &BitSet) -> (r: BitSet)
        requires
            self.wf(),
            forall|m: usize| #[trigger] attributes@.contains(m) ==> m < self.attributes@.len(),
        ensures
            r@ == self.extent_of(attributes@),
    {
        proof {
            self.lemma_wf();
        }
        let ms = attributes.to_vec();
        if ms.len() == 0 {
            assert(attributes@ =~= Set::<usize>::empty()) by {
                assert forall|m: usize| !attributes@.contains(m) by {
                    if attributes@.contains(m) {
                        assert(ms@.to_set().contains(m));
                    }
                }
            }
            let n = self.objects.len();
            let mut all = BitSet::with_capacity(n);
            let mut i: usize = 0;
            while i < n
                invariant
                    i <= n,
                    n == self.objects@.len(),
                    all@ == Set::new(|g: usize| g < i),
                decreases n - i,
            {
                all.insert(i);
                i = i + 1;
                assert(all@ =~= Set::new(|g: usize| g < i));
            }
            assert(all@ =~= self.extent_of(attributes@));
            return all;
        }
        assert(ms@.to_set().contains(ms@[0]));
        assert(attributes@.contains(ms@[0]));
        let mut result = self.atomic_attribute_derivations[ms[0]].clone();
        assert forall|g: usize|
            #[trigger] result@.contains(g) <==> (g < self.objects@.len() && forall|x: int|
                0 <= x < 1 ==> self.incident(g, #[trigger] ms@[x])) by {
            assert(self.atomic_attribute_derivations@[ms@[0] as int]@.contains(g) <==> (g
                < self.objects@.len() && self.incident(g, ms@[0])));
            if g < self.objects@.len() && self.incident(g, ms@[0]) {
                assert forall|x: int| 0 <= x < 1 implies self.incident(g, #[trigger] ms@[x]) by {
                    assert(x == 0);
                }
            }
        }
        let mut k: usize = 1;
        while k < ms.len()
            invariant
                self.wf(),
                ms@.to_set() == attributes@,
                forall|m: usize| #[trigger] attributes@.contains(m) ==> m < self.attributes@.len(),
                1 <= k <= ms@.len(),
                forall|g: usize|
                    #[trigger] result@.contains(g) <==> (g < self.objects@.len() && forall|x: int|
                        0 <= x < k ==> self.incident(g, #[trigger] ms@[x])),
                forall|m: int, g: usize|
                    0 <= m < self.attributes@.len() ==> (
                    #[trigger] self.atomic_attribute_derivations@[m]@.contains(g) <==> (g
                        < self.objects@.len() && self.incident(g, m as usize))),
            decreases ms@.len() - k,
        {
            assert(ms@.to_set().contains(ms@[k as int]));
            assert(attributes@.contains(ms@[k as int]));
            let ghost r0 = result@;
            result.intersect_with(&self.atomic_attribute_derivations[ms[k]]);
            proof {
                assert forall|g: usize|
                    #[trigger] result@.contains(g) <==> (g < self.objects@.len() && forall|x: int|
                        0 <= x < k + 1 ==> self.incident(g, #[trigger] ms@[x])) by {
                    if r0.contains(g) && self.atomic_attribute_derivations@[ms@[k as int] as int]@.contains(g) {
                        assert forall|x: int| 0 <= x < k + 1 implies self.incident(g, #[trigger] ms@[x]) by {
                            if x < k {
                            }
                        }
                    }
                }
            }
            k = k + 1;
        }
        proof {
            assert forall|g: usize| #[trigger] result@.contains(g) <==> self.extent_of(attributes@).contains(g) by {
                if result@.contains(g) {
                    assert forall|m: usize| #[trigger] attributes@.contains(m) implies self.incident(g, m) by {
                        assert(ms@.to_set().contains(m));
                        let x = choose|x: int| 0 <= x < ms@.len() && ms@[x] == m;
                    }
                }
                if self.extent_of(attributes@).contains(g) {
                    assert forall|x: int| 0 <= x < ms@.len() implies self.incident(g, #[trigger] ms@[x]) by {
                        assert(ms@.to_set().contains(ms@[x]));
                    }
                }
            }
            assert(result@ =~= self.extent_of(attributes@));
        }
        result
    }

    /// Computes the intent (set of attributes) for a given set of object indices.
    pub fn index_intent(&self, objects: &BitSet) -> (r: BitSet)
        requires
            self.wf(),
            forall|g: usize| #[trigger] objects@.contains(g) ==> g < self.objects@.len(),
        ensures
            r@ == self.intent_of(objects@),
    {
        proof {
            self.lemma_wf();
        }
        let gs = objects.to_vec();
        if gs.len() == 0 {
            assert(objects@ =~= Set::<usize>::empty()) by {
                assert forall|g: usize| !objects@.contains(g) by {
                    if objects@.contains(g) {
                        assert(gs@.to_set().contains(g));
                    }
                }
            }
            let n = self.attributes.len();
            let mut all = BitSet::with_capacity(n);
            let mut i: usize = 0;
            while i < n
                invariant
                    i <= n,
                    n == self.attributes@.len(),
                    all@ == Set::new(|m: usize| m < i),
                decreases n - i,
            {
                all.insert(i);
                i = i + 1;
                assert(all@ =~= Set::new(|m: usize| m < i));
            }
            assert(all@ =~= self.intent_of(objects@));
            return all;
        }
        assert(gs@.to_set().contains(gs@[0]));
        assert(objects@.contains(gs@[0]));
        let mut result = self.atomic_object_derivations[gs[0]].clone();
        assert forall|m: usize|
            #[trigger] result@.contains(m) <==> (m < self.attributes@.len() && forall|x: int|
                0 <= x < 1 ==> self.incident(#[trigger] gs@[x], m)) by {
            assert(self.atomic_object_derivations@[gs@[0] as int]@.contains(m) <==> (m
                < self.attributes@.len() && self.incident(gs@[0], m)));
            if m < self.attributes@.len() && self.incident(gs@[0], m) {
                assert forall|x: int| 0 <= x < 1 implies self.incident(#[trigger] gs@[x], m) by {
                    assert(x == 0);
                }
            }
        }
        let mut k: usize = 1;
        while k < gs.len()
            invariant
                self.wf(),
                gs@.to_set() == objects@,
                forall|g: usize| #[trigger] objects@.contains(g) ==> g < self.objects@.len(),
                1 <= k <= gs@.len(),
                forall|m: usize|
                    #[trigger] result@.contains(m) <==> (m < self.attributes@.len() && forall|x: int|
                        0 <= x < k ==> self.incident(#[trigger] gs@[x], m)),
                forall|g: int, m: usize|
                    0 <= g < self.objects@.len() ==> (
                    #[trigger] self.atomic_object_derivations@[g]@.contains(m) <==> (m
                        < self.attributes@.len() && self.incident(g as usize, m))),
            decreases gs@.len() - k,
        {
            assert(gs@.to_set().contains(gs@[k as int]));
            assert(objects@.contains(gs@[k as int]));
            let ghost r0 = result@;
            result.intersect_with(&self.atomic_object_derivations[gs[k]]);
            proof {
                assert forall|m: usize|
                    #[trigger] result@.contains(m) <==> (m < self.attributes@.len() && forall|x: int|
                        0 <= x < k + 1 ==> self.incident(#[trigger] gs@[x], m)) by {
                    if r0.contains(m) && self.atomic_object_derivations@[gs@[k as int] as int]@.contains(m) {
                        assert forall|x: int| 0 <= x < k + 1 implies self.incident(#[trigger] gs@[x], m) by {
                            if x < k {
                            }
                        }
                    }
                }
            }
            k = k + 1;
        }
        proof {
            assert forall|m: usize| #[trigger] result@.contains(m) <==> self.intent_of(objects@).contains(m) by {
                if result@.contains(m) {
                    assert forall|g: usize| #[trigger] objects@.contains(g) implies self.incident(g, m) by {
                        assert(gs@.to_set().contains(g));
                        let x = choose|x: int| 0 <= x < gs@.len() && gs@[x] == g;
                    }
                }
                if self.intent_of(objects@).contains(m) {
                    assert forall|x: int| 0 <= x < gs@.len() implies self.incident(#[trigger] gs@[x], m) by {
                        assert(gs@.to_set().contains(gs@[x]));
                    }
                }
            }
            assert(result@ =~= self.intent_of(objects@));
        }
        result
    }

    /// Computes the attribute hull (closure) `attributes''`.
    pub fn index_attribute_hull(&self, attributes: &BitSet) -> (r: BitSet)
        requires
            self.wf(),
            forall|m: usize| #[trigger] attributes@.contains(m) ==> m < self.attributes@.len(),
        ensures
            r@ == self.intent_of(self.extent_of(attributes@)),
    {
        let extent = self.index_extent(attributes);
        self.index_intent(&extent)
    }

    /// Computes the object hull (closure) `objects''`.
    pub fn index_object_hull(&self, objects: &BitSet) -> (r: BitSet)
        requires
            self.wf(),
            forall|g: usize| #[trigger] objects@.contains(g) ==> g < self.objects@.len(),
        ensures
            r@ == self.extent_of(self.intent_of(objects@)),
    {
        let intent = self.index_intent(objects);
        self.index_extent(&intent)
    }

    /// The derivation operators form a Galois connection: a set of objects
    /// lies in the extent of a set of attributes exactly when the attributes
    /// lie in the intent of the objects.
    pub proof fn lemma_galois(&self, objs: Set<usize>, attrs: Set<usize>)
        requires
            self.wf(),
            forall|g: usize| #[trigger] objs.contains(g) ==> g < self.objects@.len(),
            forall|m: usize| #[trigger] attrs.contains(m) ==> m < self.attributes@.len(),
        ensures
            objs.subset_of(self.extent_of(attrs)) <==> attrs.subset_of(self.intent_of(objs)),
    {
    }

    /// The attribute hull is a closure operator on attribute sets inside the
    /// table: it contains its argument, grows with it, and taking it twice
    /// changes nothing.
    pub proof fn lemma_attribute_hull_closure(&self, b1: Set<usize>, b2: Set<usize>)
        requires
            self.wf(),
            forall|m: usize| #[trigger] b1.contains(m) ==> m < self.attributes@.len(),
            forall|m: usize| #[trigger] b2.contains(m) ==> m < self.attributes@.len(),
        ensures
            b1.subset_of(self.intent_of(self.extent_of(b1))),
            self.extent_of(self.intent_of(self.extent_of(b1))) == self.extent_of(b1),
            b1.subset_of(b2) ==> self.intent_of(self.extent_of(b1)).subset_of(
                self.intent_of(self.extent_of(b2)),
            ),
            self.intent_of(self.extent_of(self.intent_of(self.extent_of(b1)))) == self.intent_of(
                self.extent_of(b1),
            ),
    {
        let e = self.extent_of(b1);
        let h = self.intent_of(e);
        assert(self.extent_of(h) =~= e) by {
            assert forall|g: usize| #[trigger] e.contains(g) implies self.extent_of(h).contains(g) by {}
            assert forall|g: usize| #[trigger] self.extent_of(h).contains(g) implies e.contains(g) by {
                assert forall|m: usize| #[trigger] b1.contains(m) implies self.incident(g, m) by {
                    assert(h.contains(m));
                }
            }
        }
        if b1.subset_of(b2) {
            assert forall|m: usize| #[trigger] h.contains(m) implies self.intent_of(self.extent_of(b2)).contains(m) by {
                assert forall|g: usize| #[trigger] self.extent_of(b2).contains(g) implies self.incident(g, m) by {
                    assert(e.contains(g));
                }
            }
        }
    }

    /// The object hull is a closure operator on object sets inside the
    /// table: it contains its argument, grows with it, and taking it twice
    /// changes nothing.
    pub proof fn lemma_object_hull_closure(&self, a1: Set<usize>, a2: Set<usize>)
        requires
            self.wf(),
            forall|g: usize| #[trigger] a1.contains(g) ==> g < self.objects@.len(),
            forall|g: usize| #[trigger] a2.contains(g) ==> g < self.objects@.len(),
        ensures
            a1.subset_of(self.extent_of(self.intent_of(a1))),
            a1.subset_of(a2) ==> self.extent_of(self.intent_of(a1)).subset_of(
                self.extent_of(self.intent_of(a2)),
            ),
            self.extent_of(self.intent_of(self.extent_of(self.intent_of(a1)))) == self.extent_of(
                self.intent_of(a1),
            ),
    {
        let i = self.intent_of(a1);
        let h = self.extent_of(i);
        assert(self.intent_of(h) =~= i) by {
            assert forall|m: usize| #[trigger] i.contains(m) implies self.intent_of(h).contains(m) by {}
            assert forall|m: usize| #[trigger] self.intent_of(h).contains(m) implies i.contains(m) by {
                assert forall|g: usize| #[trigger] a1.contains(g) implies self.incident(g, m) by {
                    assert(h.contains(g));
                }
            }
        }
        if a1.subset_of(a2) {
            assert forall|g: usize| #[trigger] h.contains(g) implies self.extent_of(self.intent_of(a2)).contains(g) by {
                assert forall|m: usize| #[trigger] self.intent_of(a2).contains(m) implies self.incident(g, m) by {
                    assert(i.contains(m));
                }
            }
        }
    }
}

// ---- editing a context ------------------------------------------------------

impl<T> FormalContext<T> {
    /// Adds a new object with its corresponding attributes (attribute indices).
    #[verifier::spinoff_prover]
    pub fn add_object(&mut self, new_object: T, attributes: &BitSet)
        requires
            old(self).wf(),
            old(self).objects@.len() < usize::MAX,
            forall|m: usize| #[trigger] attributes@.contains(m) ==> m < old(self).attributes@.len(),
        ensures
            final(self).wf(),
            final(self).name == old(self).name,
            final(self).objects@ == old(self).objects@.push(new_object),
            final(self).attributes == old(self).attributes,
            forall|g: usize, m: usize|
                #[trigger] final(self).incident(g, m) <==> (old(self).incident(g, m) || (g
                    == old(self).objects@.len() && attributes@.contains(m))),
    {
        proof {
            old(self).lemma_wf();
        }
        let ghost old_ctx = *self;
        self.objects.push(new_object);
        let object_index = self.objects.len() - 1;
        self.atomic_object_derivations.push(BitSet::new());
        proof {
            assert forall|m: int, g: usize| 0 <= m < self.attributes@.len() implies (
            #[trigger] self.atomic_attribute_derivations@[m]@.contains(g) <==> (g
                < self.objects@.len() && self.incident(g, m as usize))) by {
                assert(old_ctx.atomic_attribute_derivations@[m]@.contains(g) <==> (g
                    < old_ctx.objects@.len() && old_ctx.incident(g, m as usize)));
                if self.incident(g, m as usize) {
                    assert(old_ctx.incident(g, m as usize));
                    assert(g < old_ctx.objects@.len());
                }
            }
            assert forall|g: int, m: usize| 0 <= g < self.objects@.len() implies (
            #[trigger] self.atomic_object_derivations@[g]@.contains(m) <==> (m
                < self.attributes@.len() && self.incident(g as usize, m))) by {
                if g < old_ctx.objects@.len() {
                    assert(old_ctx.atomic_object_derivations@[g]@.contains(m) <==> (m
                        < old_ctx.attributes@.len() && old_ctx.incident(g as usize, m)));
                } else {
                    assert(!old_ctx.incident(g as usize, m));
                }
            }
        }
        let ms = attributes.to_vec();
        let mut k: usize = 0;
        while k < ms.len()
            invariant
                old_ctx.wf(),
                ms@.to_set() == attributes@,
                strictly_increasing(ms@),
                forall|m: usize| #[trigger] attributes@.contains(m) ==> m < old_ctx.attributes@.len(),
                object_index == old_ctx.objects@.len(),
                old_ctx.objects@.len() < usize::MAX,
                k <= ms@.len(),
                self.name == old_ctx.name,
                self.objects@ == old_ctx.objects@.push(new_object),
                self.attributes == old_ctx.attributes,
                self.atomic_object_derivations@.len() == self.objects@.len(),
                self.atomic_attribute_derivations@.len() == self.attributes@.len(),
                self.incidence@.no_duplicates(),
                forall|i: int|
                    0 <= i < self.incidence@.len() ==> #[trigger] self.incidence@[i].0
                        < self.objects@.len() && self.incidence@[i].1 < self.attributes@.len(),
                forall|g: usize, m: usize|
                    #[trigger] self.incident(g, m) <==> (old_ctx.incident(g, m) || (g == object_index
                        && exists|x: int| 0 <= x < k && ms@[x] == m)),
                forall|g: int, m: usize|
                    0 <= g < self.objects@.len() ==> (
                    #[trigger] self.atomic_object_derivations@[g]@.contains(m) <==> (m
                        < self.attributes@.len() && self.incident(g as usize, m))),
                forall|m: int, g: usize|
                    0 <= m < self.attributes@.len() ==> (
                    #[trigger] self.atomic_attribute_derivations@[m]@.contains(g) <==> (g
                        < self.objects@.len() && self.incident(g, m as usize))),
            decreases ms@.len() - k,
        {
            let m = ms[k];
            assert(ms@.to_set().contains(m));
            assert(attributes@.contains(m));
            proof {
                assert(!self.incident(object_index, m)) by {
                    if self.incident(object_index, m) {
                        if old_ctx.incident(object_index, m) {
                            old_ctx.lemma_wf();
                        } else {
                            let x = choose|x: int| 0 <= x < k && ms@[x] == m;
                            assert(ms@[x] < ms@[k as int]);
                        }
                    }
                }
            }
            let ghost inc0 = self.incidence@;
            let ghost rows0 = self.atomic_object_derivations@;
            let ghost cols0 = self.atomic_attribute_derivations@;
            assert(forall|g: usize, a: usize| #[trigger] inc0.contains((g, a)) <==> (old_ctx.incident(g, a) || (g == object_index
                && exists|x: int| 0 <= x < k && ms@[x] == a))) by {
                assert(forall|g: usize, a: usize| #[trigger] inc0.contains((g, a)) == self.incident(g, a));
            }
            assert(self.attributes@.len() == self.attributes.len());
            self.incidence.push((object_index, m));
            self.atomic_object_derivations[object_index].insert(m);
            self.atomic_attribute_derivations[m].insert(object_index);
            proof {
                assert forall|i: int| 0 <= i < self.incidence@.len() implies #[trigger] self.incidence@[i].0
                    < self.objects@.len() && self.incidence@[i].1 < self.attributes@.len() by {
                    if i < inc0.len() {
                        assert(self.incidence@[i] == inc0[i]);
                    }
                }
                assert forall|g: usize, a: usize| #[trigger] self.incidence@.contains((g, a)) <==> (inc0.contains((g, a))
                    || (g == object_index && a == m)) by {
                    if self.incidence@.contains((g, a)) {
                        let i = choose|i: int| 0 <= i < self.incidence@.len() && self.incidence@[i] == (g, a);
                        if i < inc0.len() {
                            assert(inc0[i] == (g, a));
                        }
                    }
                    if inc0.contains((g, a)) {
                        let i = choose|i: int| 0 <= i < inc0.len() && inc0[i] == (g, a);
                        assert(self.incidence@[i] == (g, a));
                    }
                    if g == object_index && a == m {
                        assert(self.incidence@[inc0.len() as int] == (g, a));
                    }
                }
                assert forall|g: usize, a: usize|
                    #[trigger] self.incident(g, a) <==> (old_ctx.incident(g, a) || (g == object_index
                        && exists|x: int| 0 <= x < k + 1 && ms@[x] == a)) by {
                    assert(inc0.contains((g, a)) <==> (old_ctx.incident(g, a) || (g == object_index
                        && exists|x: int| 0 <= x < k && ms@[x] == a)));
                    if g == object_index && a == m {
                        assert(ms@[k as int] == a);
                    }
                }
                assert(self.incidence@.no_duplicates()) by {
                    assert forall|i: int, j: int|
                        0 <= i < self.incidence@.len() && 0 <= j < self.incidence@.len() && i != j implies
                        self.incidence@[i] != self.incidence@[j] by {
                        if i == inc0.len() {
                            assert(!inc0.contains((object_index, m)));
                            assert(self.incidence@[j] == inc0[j]);
                        } else if j == inc0.len() {
                            assert(!inc0.contains((object_index, m)));
                            assert(self.incidence@[i] == inc0[i]);
                        } else {
                            assert(self.incidence@[i] == inc0[i] && self.incidence@[j] == inc0[j]);
                        }
                    }
                }
                assert forall|g: int, a: usize| 0 <= g < self.objects@.len() implies (
                #[trigger] self.atomic_object_derivations@[g]@.contains(a) <==> (a < self.attributes@.len()
                    && self.incident(g as usize, a))) by {
                    assert(rows0[g]@.contains(a) <==> (a < self.attributes@.len() && inc0.contains((g as usize, a))));
                    if g != object_index {
                        assert(self.atomic_object_derivations@[g] == rows0[g]);
                    }
                }
                assert forall|a: int, g: usize| 0 <= a < self.attributes@.len() implies (
                #[trigger] self.atomic_attribute_derivations@[a]@.contains(g) <==> (g < self.objects@.len()
                    && self.incident(g, a as usize))) by {
                    assert(cols0[a]@.contains(g) <==> (g < self.objects@.len() && inc0.contains((g, a as usize))));
                    if a != m {
                        assert(self.atomic_attribute_derivations@[a] == cols0[a]);
                    }
                }
            }
            k = k + 1;
        }
        proof {
            assert forall|g: usize, m: usize|
                #[trigger] self.incident(g, m) <==> (old_ctx.incident(g, m) || (g == old_ctx.objects@.len()
                    && attributes@.contains(m))) by {
                if attributes@.contains(m) {
                    assert(ms@.to_set().contains(m));
                }
            }
        }
    }

    /// Adds a new attribute with its corresponding objects (object indices).
    pub fn add_attribute(&mut self, new_attribute: T, objects: &BitSet)
        requires
            old(self).wf(),
            old(self).attributes@.len() < usize::MAX,
            forall|g: usize| #[trigger] objects@.contains(g) ==> g < old(self).objects@.len(),
        ensures
            final(self).wf(),
            final(self).name == old(self).name,
            final(self).objects == old(self).objects,
            final(self).attributes@ == old(self).attributes@.push(new_attribute),
            forall|g: usize, m: usize|
                #[trigger] final(self).incident(g, m) <==> (old(self).incident(g, m) || (m
                    == old(self).attributes@.len() && objects@.contains(g))),
    {
        proof {
            old(self).lemma_wf();
        }
        let ghost old_ctx = *self;
        self.attributes.push(new_attribute);
        let attribute_index = self.attributes.len() - 1;
        self.atomic_attribute_derivations.push(BitSet::new());
        proof {
            assert forall|i: int| 0 <= i < self.incidence@.len() implies #[trigger] self.incidence@[i].0
                < self.objects@.len() && self.incidence@[i].1 < self.attributes@.len() by {
                assert(old_ctx.incidence@[i].0 < old_ctx.objects@.len());
                assert(old_ctx.incidence@[i].1 < old_ctx.attributes@.len());
            }
            assert forall|g: int, m: usize| 0 <= g < self.objects@.len() implies (
            #[trigger] self.atomic_object_derivations@[g]@.contains(m) <==> (m
                < self.attributes@.len() && self.incident(g as usize, m))) by {
                assert(old_ctx.atomic_object_derivations@[g]@.contains(m) <==> (m
                    < old_ctx.attributes@.len() && old_ctx.incident(g as usize, m)));
                if self.incident(g as usize, m) {
                    assert(old_ctx.incident(g as usize, m));
                    assert(m < old_ctx.attributes@.len());
                }
            }
            assert forall|m: int, g: usize| 0 <= m < self.attributes@.len() implies (
            #[trigger] self.atomic_attribute_derivations@[m]@.contains(g) <==> (g
                < self.objects@.len() && self.incident(g, m as usize))) by {
                if m < old_ctx.attributes@.len() {
                    assert(old_ctx.atomic_attribute_derivations@[m]@.contains(g) <==> (g
                        < old_ctx.objects@.len() && old_ctx.incident(g, m as usize)));
                } else {
                    assert(!old_ctx.incident(g, m as usize));
                }
            }
        }
        let gs = objects.to_vec();
        let mut k: usize = 0;
        while k < gs.len()
            invariant
                old_ctx.wf(),
                gs@.to_set() == objects@,
                strictly_increasing(gs@),
                forall|g: usize| #[trigger] objects@.contains(g) ==> g < old_ctx.objects@.len(),
                attribute_index == old_ctx.attributes@.len(),
                old_ctx.attributes@.len() < usize::MAX,
                k <= gs@.len(),
                self.name == old_ctx.name,
                self.objects == old_ctx.objects,
                self.attributes@ == old_ctx.attributes@.push(new_attribute),
                self.atomic_object_derivations@.len() == self.objects@.len(),
                self.atomic_attribute_derivations@.len() == self.attributes@.len(),
                self.incidence@.no_duplicates(),
                forall|i: int|
                    0 <= i < self.incidence@.len() ==> #[trigger] self.incidence@[i].0
                        < self.objects@.len() && self.incidence@[i].1 < self.attributes@.len(),
                forall|g: usize, m: usize|
                    #[trigger] self.incident(g, m) <==> (old_ctx.incident(g, m) || (m == attribute_index
                        && exists|x: int| 0 <= x < k && gs@[x] == g)),
                forall|g: int, m: usize|
                    0 <= g < self.objects@.len() ==> (
                    #[trigger] self.atomic_object_derivations@[g]@.contains(m) <==> (m
                        < self.attributes@.len() && self.incident(g as usize, m))),
                forall|m: int, g: usize|
                    0 <= m < self.attributes@.len() ==> (
                    #[trigger] self.atomic_attribute_derivations@[m]@.contains(g) <==> (g
                        < self.objects@.len() && self.incident(g, m as usize))),
            decreases gs@.len() - k,
        {
            let g = gs[k];
            assert(gs@.to_set().contains(g));
            assert(objects@.contains(g));
            proof {
                assert(!self.incident(g, attribute_index)) by {
                    if self.incident(g, attribute_index) {
                        if old_ctx.incident(g, attribute_index) {
                            old_ctx.lemma_wf();
                        } else {
                            let x = choose|x: int| 0 <= x < k && gs@[x] == g;
                            assert(gs@[x] < gs@[k as int]);
                        }
                    }
                }
            }
            let ghost inc0 = self.incidence@;
            let ghost rows0 = self.atomic_object_derivations@;
            let ghost cols0 = self.atomic_attribute_derivations@;
            assert(forall|h: usize, a: usize| #[trigger] inc0.contains((h, a)) <==> (old_ctx.incident(h, a) || (a == attribute_index
                && exists|x: int| 0 <= x < k && gs@[x] == h))) by {
                assert(forall|h: usize, a: usize| #[trigger] inc0.contains((h, a)) == self.incident(h, a));
            }
            assert(self.objects@.len() == self.objects.len());
            self.incidence.push((g, attribute_index));
            self.atomic_object_derivations[g].insert(attribute_index);
            self.atomic_attribute_derivations[attribute_index].insert(g);
            proof {
                assert forall|h: usize, a: usize| #[trigger] self.incidence@.contains((h, a)) <==> (inc0.contains((h, a))
                    || (h == g && a == attribute_index)) by {
                    if self.incidence@.contains((h, a)) {
                        let i = choose|i: int| 0 <= i < self.incidence@.len() && self.incidence@[i] == (h, a);
                        if i < inc0.len() {
                            assert(inc0[i] == (h, a));
                        }
                    }
                    if inc0.contains((h, a)) {
                        let i = choose|i: int| 0 <= i < inc0.len() && inc0[i] == (h, a);
                        assert(self.incidence@[i] == (h, a));
                    }
                    if h == g && a == attribute_index {
                        assert(self.incidence@[inc0.len() as int] == (h, a));
                    }
                }
                assert forall|h: usize, a: usize|
                    #[trigger] self.incident(h, a) <==> (old_ctx.incident(h, a) || (a == attribute_index
                        && exists|x: int| 0 <= x < k + 1 && gs@[x] == h)) by {
                    assert(inc0.contains((h, a)) <==> (old_ctx.incident(h, a) || (a == attribute_index
                        && exists|x: int| 0 <= x < k && gs@[x] == h)));
                    if h == g && a == attribute_index {
                        assert(gs@[k as int] == h);
                    }
                }
                assert(self.incidence@.no_duplicates()) by {
                    assert forall|i: int, j: int|
                        0 <= i < self.incidence@.len() && 0 <= j < self.incidence@.len() && i != j implies
                        self.incidence@[i] != self.incidence@[j] by {
                        if i == inc0.len() {
                            assert(!inc0.contains((g, attribute_index)));
                            assert(self.incidence@[j] == inc0[j]);
                        } else if j == inc0.len() {
                            assert(!inc0.contains((g, attribute_index)));
                            assert(self.incidence@[i] == inc0[i]);
                        } else {
                            assert(self.incidence@[i] == inc0[i] && self.incidence@[j] == inc0[j]);
                        }
                    }
                }
                assert forall|h: int, a: usize| 0 <= h < self.objects@.len() implies (
                #[trigger] self.atomic_object_derivations@[h]@.contains(a) <==> (a < self.attributes@.len()
                    && self.incident(h as usize, a))) by {
                    assert(rows0[h]@.contains(a) <==> (a < self.attributes@.len() && inc0.contains((h as usize, a))));
                    if h != g {
                        assert(self.atomic_object_derivations@[h] == rows0[h]);
                    }
                }
                assert forall|a: int, h: usize| 0 <= a < self.attributes@.len() implies (
                #[trigger] self.atomic_attribute_derivations@[a]@.contains(h) <==> (h < self.objects@.len()
                    && self.incident(h, a as usize))) by {
                    assert(cols0[a]@.contains(h) <==> (h < self.objects@.len() && inc0.contains((h, a as usize))));
                    if a != attribute_index {
                        assert(self.atomic_attribute_derivations@[a] == cols0[a]);
                    }
                }
            }
            k = k + 1;
        }
        proof {
            assert forall|g: usize, m: usize|
                #[trigger] self.incident(g, m) <==> (old_ctx.incident(g, m) || (m == old_ctx.attributes@.len()
                    && objects@.contains(g))) by {
                if objects@.contains(g) {
                    assert(gs@.to_set().contains(g));
                }
            }
        }
    }
}

impl<T> FormalContext<T> {
    /// Sets or clears the incidence cross at object `g` and attribute `m`,
    /// keeping the cached rows and columns in sync.
    pub fn set_cross(&mut self, g: usize, m: usize, value: bool)
        requires
            old(self).wf(),
            g < old(self).objects@.len(),
            m < old(self).attributes@.len(),
        ensures
            final(self).wf(),
            final(self).name == old(self).name,
            final(self).objects == old(self).objects,
            final(self).attributes == old(self).attributes,
            forall|a: usize, b: usize|
                #[trigger] final(self).incident(a, b) <==> if a == g && b == m {
                    value
                } else {
                    old(self).incident(a, b)
                },
    {
        let ghost old_ctx = *self;
        let mut pos: usize = 0;
        while pos < self.incidence.len()
            invariant
                pos <= self.incidence@.len(),
                forall|j: int| 0 <= j < pos ==> self.incidence@[j] != (g, m),
            ensures
                pos <= self.incidence@.len(),
                forall|j: int| 0 <= j < pos ==> self.incidence@[j] != (g, m),
                pos < self.incidence@.len() ==> self.incidence@[pos as int] == (g, m),
            decreases self.incidence@.len() - pos,
        {
            let e = self.incidence[pos];
            if e.0 == g && e.1 == m {
                break;
            }
            pos = pos + 1;
        }
        let found = pos < self.incidence.len();
        assert(found ==> self.incidence@[pos as int] == (g, m));
        assert(!found ==> !self.incidence@.contains((g, m)));
        let ghost inc0 = self.incidence@;
        assert(self.attributes@.len() == self.attributes.len());
        assert(self.objects@.len() == self.objects.len());
        if value {
            if !found {
                self.incidence.push((g, m));
            }
            self.atomic_object_derivations[g].insert(m);
            self.atomic_attribute_derivations[m].insert(g);
        } else {
            if found {
                self.incidence.remove(pos);
            }
            self.atomic_object_derivations[g].remove(m);
            self.atomic_attribute_derivations[m].remove(g);
        }
        proof {
            assert forall|a: usize, b: usize|
                #[trigger] self.incidence@.contains((a, b)) <==> if a == g && b == m {
                    value
                } else {
                    inc0.contains((a, b))
                } by {
                if self.incidence@.contains((a, b)) {
                    let i = choose|i: int| 0 <= i < self.incidence@.len() && self.incidence@[i] == (a, b);
                    if value {
                        if i < inc0.len() {
                            assert(inc0[i] == (a, b));
                        }
                    } else if found {
                        if i < pos {
                            assert(inc0[i] == (a, b));
                        } else {
                            assert(inc0[i + 1] == (a, b));
                            if a == g && b == m {
                                assert(inc0[pos as int] == inc0[i + 1]);
                            }
                        }
                    }
                }
                if inc0.contains((a, b)) && !(a == g && b == m) {
                    let i = choose|i: int| 0 <= i < inc0.len() && inc0[i] == (a, b);
                    if value || !found {
                        assert(self.incidence@[i] == (a, b));
                    } else if i < pos {
                        assert(self.incidence@[i] == (a, b));
                    } else {
                        assert(i != pos);
                        assert(self.incidence@[i - 1] == (a, b));
                    }
                }
                if a == g && b == m && value {
                    if found {
                        assert(self.incidence@[pos as int] == (a, b));
                    } else {
                        assert(self.incidence@[inc0.len() as int] == (a, b));
                    }
                }
            }
            assert(self.incidence@.no_duplicates()) by {
                assert forall|i: int, j: int|
                    0 <= i < self.incidence@.len() && 0 <= j < self.incidence@.len() && i != j implies
                    self.incidence@[i] != self.incidence@[j] by {
                    if value && !found {
                        if i == inc0.len() {
                            assert(self.incidence@[j] == inc0[j]);
                        } else if j == inc0.len() {
                            assert(self.incidence@[i] == inc0[i]);
                        }
                    } else if !value && found {
                        let i2 = if i < pos { i } else { i + 1 };
                        let j2 = if j < pos { j } else { j + 1 };
                        assert(self.incidence@[i] == inc0[i2]);
                        assert(self.incidence@[j] == inc0[j2]);
                    }
                }
            }
            assert forall|i: int| 0 <= i < self.incidence@.len() implies #[trigger] self.incidence@[i].0
                < self.objects@.len() && self.incidence@[i].1 < self.attributes@.len() by {
                let (a, b) = self.incidence@[i];
                assert(self.incidence@.contains((a, b)));
                if !(a == g && b == m) {
                    let k = choose|k: int| 0 <= k < inc0.len() && inc0[k] == (a, b);
                    assert(old_ctx.incidence@[k].0 < old_ctx.objects@.len());
                }
            }
            assert forall|a: int, b: usize| 0 <= a < self.objects@.len() implies (
            #[trigger] self.atomic_object_derivations@[a]@.contains(b) <==> (b < self.attributes@.len()
                && self.incident(a as usize, b))) by {
                assert(old_ctx.atomic_object_derivations@[a]@.contains(b) <==> (b < old_ctx.attributes@.len()
                    && old_ctx.incident(a as usize, b)));
            }
            assert forall|b: int, a: usize| 0 <= b < self.attributes@.len() implies (
            #[trigger] self.atomic_attribute_derivations@[b]@.contains(a) <==> (a < self.objects@.len()
                && self.incident(a, b as usize))) by {
                assert(old_ctx.atomic_attribute_derivations@[b]@.contains(a) <==> (a < old_ctx.objects@.len()
                    && old_ctx.incident(a, b as usize)));
            }
        }
    }

    /// Changes the name of the object at the specified index.
    pub fn change_object_name(&mut self, name: T, index: usize)
        requires
            index < old(self).objects@.len(),
        ensures
            final(self).objects@ == old(self).objects@.update(index as int, name),
            final(self).name == old(self).name,
            final(self).attributes == old(self).attributes,
            final(self).incidence == old(self).incidence,
            final(self).atomic_object_derivations == old(self).atomic_object_derivations,
            final(self).atomic_attribute_derivations == old(self).atomic_attribute_derivations,
    {
        self.objects.set(index, name);
    }

    /// Changes the name of the attribute at the specified index.
    pub fn change_attribute_name(&mut self, name: T, index: usize)
        requires
            index < old(self).attributes@.len(),
        ensures
            final(self).attributes@ == old(self).attributes@.update(index as int, name),
            final(self).name == old(self).name,
            final(self).objects == old(self).objects,
            final(self).incidence == old(self).incidence,
            final(self).atomic_object_derivations == old(self).atomic_object_derivations,
            final(self).atomic_attribute_derivations == old(self).atomic_attribute_derivations,
    {
        self.attributes.set(index, name);
    }
}

/// Object `a` of the context after removing object `index` was object
/// `unshift(a, index)` before.
pub open spec fn unshift(a: usize, index: usize) -> int {
    if a < index {
        a as int
    } else {
        a + 1
    }
}

/// The pairs of `inc` off row `index` (or column, for `cols`), later rows
/// (columns) moved down by one, in order.
pub open spec fn drop_line(inc: Seq<(usize, usize)>, index: usize, cols: bool) -> Seq<(usize, usize)>
    decreases inc.len(),
{
    if inc.len() == 0 {
        Seq::empty()
    } else {
        let rest = drop_line(inc.drop_last(), index, cols);
        let (a, b) = inc.last();
        let key = if cols { b } else { a };
        if key == index {
            rest
        } else if key > index {
            rest.push(if cols { (a, (b - 1) as usize) } else { ((a - 1) as usize, b) })
        } else {
            rest.push((a, b))
        }
    }
}

proof fn lemma_drop_line(inc: Seq<(usize, usize)>, index: usize, cols: bool)
    requires
        inc.no_duplicates(),
    ensures
        drop_line(inc, index, cols).no_duplicates(),
        forall|a: usize, b: usize|
            #[trigger] drop_line(inc, index, cols).contains((a, b)) <==> if cols {
                unshift(b, index) <= usize::MAX && inc.contains((a, unshift(b, index) as usize))
            } else {
                unshift(a, index) <= usize::MAX && inc.contains((unshift(a, index) as usize, b))
            },
    decreases inc.len(),
{
    if inc.len() > 0 {
        let init = inc.drop_last();
        assert(init.no_duplicates()) by {
            assert forall|i: int, j: int| 0 <= i < init.len() && 0 <= j < init.len() && i != j implies init[i] != init[j] by {
                assert(init[i] == inc[i] && init[j] == inc[j]);
            }
        }
        lemma_drop_line(init, index, cols);
        let rest = drop_line(init, index, cols);
        let (a0, b0) = inc.last();
        let key = if cols { b0 } else { a0 };
        assert(!init.contains((a0, b0))) by {
            if init.contains((a0, b0)) {
                let i = choose|i: int| 0 <= i < init.len() && init[i] == (a0, b0);
                assert(inc[i] == inc[inc.len() - 1]);
            }
        }
        assert forall|a: usize, b: usize| #[trigger] inc.contains((a, b)) <==> (init.contains((a, b)) || (a, b) == (a0, b0)) by {
            if inc.contains((a, b)) {
                let i = choose|i: int| 0 <= i < inc.len() && inc[i] == (a, b);
                if i < inc.len() - 1 {
                    assert(init[i] == (a, b));
                }
            }
            if init.contains((a, b)) {
                let i = choose|i: int| 0 <= i < init.len() && init[i] == (a, b);
                assert(inc[i] == (a, b));
            }
            if (a, b) == (a0, b0) {
                assert(inc[inc.len() - 1] == (a, b));
            }
        }
        if key != index {
            let e = if key > index {
                if cols { (a0, (b0 - 1) as usize) } else { ((a0 - 1) as usize, b0) }
            } else {
                (a0, b0)
            };
            let now = rest.push(e);
            assert(drop_line(inc, index, cols) == now);
            assert(!rest.contains(e)) by {
                if rest.contains(e) {
                    if cols {
                        assert(unshift(e.1, index) as usize == b0);
                        assert(init.contains((a0, b0)));
                    } else {
                        assert(unshift(e.0, index) as usize == a0);
                        assert(init.contains((a0, b0)));
                    }
                }
            }
            assert forall|i: int, j: int| 0 <= i < now.len() && 0 <= j < now.len() && i != j implies now[i] != now[j] by {
                if i == rest.len() {
                    assert(rest.contains(now[j]));
                } else if j == rest.len() {
                    assert(rest.contains(now[i]));
                }
            }
            assert forall|a: usize, b: usize|
                #[trigger] now.contains((a, b)) <==> if cols {
                    unshift(b, index) <= usize::MAX && inc.contains((a, unshift(b, index) as usize))
                } else {
                    unshift(a, index) <= usize::MAX && inc.contains((unshift(a, index) as usize, b))
                } by {
                if now.contains((a, b)) {
                    let i = choose|i: int| 0 <= i < now.len() && now[i] == (a, b);
                    if i < rest.len() {
                        assert(rest.contains((a, b)));
                    }
                }
                if rest.contains((a, b)) {
                    let i = choose|i: int| 0 <= i < rest.len() && rest[i] == (a, b);
                    assert(now[i] == (a, b));
                }
                if (a, b) == e {
                    assert(now[rest.len() as int] == (a, b));
                }
            }
        } else {
            assert(drop_line(inc, index, cols) == rest);
        }
    }
}

/// The incidence list without row `index` (or column, for `cols`), later
/// rows (columns) renumbered down by one.
fn drop_incidence_line(inc: &Vec<(usize, usize)>, index: usize, cols: bool) -> (r: Vec<(usize, usize)>)
    ensures
        r@ == drop_line(inc@, index, cols),
{
    let mut out: Vec<(usize, usize)> = Vec::new();
    let mut k: usize = 0;
    while k < inc.len()
        invariant
            k <= inc@.len(),
            out@ == drop_line(inc@.take(k as int), index, cols),
        decreases inc@.len() - k,
    {
        let (a, b) = inc[k];
        assert(inc@.take(k + 1).drop_last() == inc@.take(k as int));
        assert(inc@.take(k + 1).last() == (a, b));
        let key = if cols { b } else { a };
        if key != index {
            if key > index {
                if cols {
                    out.push((a, b - 1));
                } else {
                    out.push((a - 1, b));
                }
            } else {
                out.push((a, b));
            }
        }
        k = k + 1;
    }
    assert(inc@.take(inc@.len() as int) == inc@);
    out
}

impl<T> FormalContext<T> {
    /// Removes the object at the specified index; later objects move down
    /// by one.
    pub fn remove_object(&mut self, index: usize)
        requires
            old(self).wf(),
            index < old(self).objects@.len(),
        ensures
            final(self).wf(),
            final(self).name == old(self).name,
            final(self).objects@ == old(self).objects@.remove(index as int),
            final(self).attributes == old(self).attributes,
            forall|g: usize, m: usize|
                #[trigger] final(self).incident(g, m) <==> (unshift(g, index) <= usize::MAX
                    && old(self).incident(unshift(g, index) as usize, m)),
    {
        let ghost old_ctx = *self;
        proof {
            old_ctx.lemma_wf();
        }
        let incidence = drop_incidence_line(&self.incidence, index, false);
        proof {
            lemma_drop_line(old_ctx.incidence@, index, false);
            assert forall|i: int| 0 <= i < incidence@.len() implies #[trigger] incidence@[i].0
                < old_ctx.objects@.len() - 1 && incidence@[i].1 < old_ctx.attributes@.len() by {
                let (a, b) = incidence@[i];
                assert(incidence@.contains((a, b)));
                assert(old_ctx.incident(unshift(a, index) as usize, b));
            }
        }
        let mut name = String::new();
        std::mem::swap(&mut name, &mut self.name);
        let mut objects: Vec<T> = Vec::new();
        std::mem::swap(&mut objects, &mut self.objects);
        let mut attributes: Vec<T> = Vec::new();
        std::mem::swap(&mut attributes, &mut self.attributes);
        objects.remove(index);
        *self = FormalContext::construct(name, objects, attributes, incidence);
    }

    /// Removes the attribute at the specified index; later attributes move
    /// down by one.
    pub fn remove_attribute(&mut self, index: usize)
        requires
            old(self).wf(),
            index < old(self).attributes@.len(),
        ensures
            final(self).wf(),
            final(self).name == old(self).name,
            final(self).objects == old(self).objects,
            final(self).attributes@ == old(self).attributes@.remove(index as int),
            forall|g: usize, m: usize|
                #[trigger] final(self).incident(g, m) <==> (unshift(m, index) <= usize::MAX
                    && old(self).incident(g, unshift(m, index) as usize)),
    {
        let ghost old_ctx = *self;
        proof {
            old_ctx.lemma_wf();
        }
        let incidence = drop_incidence_line(&self.incidence, index, true);
        proof {
            lemma_drop_line(old_ctx.incidence@, index, true);
            assert forall|i: int| 0 <= i < incidence@.len() implies #[trigger] incidence@[i].0
                < old_ctx.objects@.len() && incidence@[i].1 < old_ctx.attributes@.len() - 1 by {
                let (a, b) = incidence@[i];
                assert(incidence@.contains((a, b)));
                assert(old_ctx.incident(a, unshift(b, index) as usize));
            }
        }
        let mut name = String::new();
        std::mem::swap(&mut name, &mut self.name);
        let mut objects: Vec<T> = Vec::new();
        std::mem::swap(&mut objects, &mut self.objects);
        let mut attributes: Vec<T> = Vec::new();
        std::mem::swap(&mut attributes, &mut self.attributes);
        attributes.remove(index);
        *self = FormalContext::construct(name, objects, attributes, incidence);
    }
}

/// Concepts as pairs of sets.
pub open spec fn concept_views(cs: Seq<(BitSet, BitSet)>) -> Seq<(Set<usize>, Set<usize>)> {
    cs.map_values(|c: (BitSet, BitSet)| (c.0@, c.1@))
}

/// The concepts, in order, whose extent has at least `min_extent` objects.
pub open spec fn with_min_extent(cs: Seq<(Set<usize>, Set<usize>)>, min_extent: nat) -> Seq<
    (Set<usize>, Set<usize>),
>
    decreases cs.len(),
{
    if cs.len() == 0 {
        Seq::empty()
    } else {
        let rest = with_min_extent(cs.drop_last(), min_extent);
        if cs.last().0.len() >= min_extent {
            rest.push(cs.last())
        } else {
            rest
        }
    }
}

impl<T> FormalContext<T> {
    /// Keeps the concepts whose extent has at least `min_extent` objects.
    pub fn filter_concepts_by_min_extent(concepts: Vec<(BitSet, BitSet)>, min_extent: usize) -> (r: Vec<
        (BitSet, BitSet),
    >)
        ensures
            concept_views(r@) == with_min_extent(concept_views(concepts@), min_extent as nat),
    {
        let ghost cv = concept_views(concepts@);
        let mut out: Vec<(BitSet, BitSet)> = Vec::new();
        let mut k: usize = 0;
        while k < concepts.len()
            invariant
                cv == concept_views(concepts@),
                k <= concepts@.len(),
                concept_views(out@) == with_min_extent(cv.take(k as int), min_extent as nat),
            decreases concepts@.len() - k,
        {
            let extent = &concepts[k].0;
            assert(cv.take(k + 1).drop_last() == cv.take(k as int));
            assert(cv.take(k + 1).last() == (concepts@[k as int].0@, concepts@[k as int].1@));
            if extent.len() >= min_extent {
                let c = (concepts[k].0.clone(), concepts[k].1.clone());
                let ghost o0 = out@;
                out.push(c);
                assert(concept_views(out@) == concept_views(o0).push((c.0@, c.1@)));
            }
            k = k + 1;
        }
        assert(cv.take(concepts@.len() as int) == cv);
        out
    }
}

// ---- lectic order ------------------------------------------------------------

/// Inserts index `x` into `p`, which is ordered by `keys`, after every entry
/// whose key is at most that of `x`.
pub open spec fn insert_by_key(p: Seq<int>, keys: Seq<int>, x: int) -> Seq<int>
    decreases p.len(),
{
    if p.len() == 0 {
        seq![x]
    } else if keys[p.last()] <= keys[x] {
        p.push(x)
    } else {
        insert_by_key(p.drop_last(), keys, x).push(p.last())
    }
}

/// The indices `0..k` in the stable order of their keys: insertion sort.
pub open spec fn sort_by_key(keys: Seq<int>, k: nat) -> Seq<int>
    decreases k,
{
    if k == 0 {
        Seq::empty()
    } else {
        insert_by_key(sort_by_key(keys, (k - 1) as nat), keys, k - 1)
    }
}

/// The lectic rank of each concept's intent among the subsets of `0..n`.
pub open spec fn intent_ranks(cs: Seq<(Set<usize>, Set<usize>)>, n: nat) -> Seq<int> {
    cs.map_values(|c: (Set<usize>, Set<usize>)| lectic_rank(c.1, n) as int)
}

/// `cs` rearranged in lectic order of the intents, equal intents kept in
/// their order.
pub open spec fn lectic_sorted(cs: Seq<(Set<usize>, Set<usize>)>, n: nat) -> Seq<
    (Set<usize>, Set<usize>),
> {
    let perm = sort_by_key(intent_ranks(cs, n), cs.len());
    Seq::new(cs.len(), |i: int| cs[perm[i]])
}

/// Lectic sorting rearranges the concepts, each position taken once, so
/// that their intents come in nondecreasing lectic rank.
pub proof fn lemma_lectic_sorted(cs: Seq<(Set<usize>, Set<usize>)>, n: nat)
    ensures
        lectic_sorted(cs, n).len() == cs.len(),
        sort_by_key(intent_ranks(cs, n), cs.len()).to_multiset() == Seq::new(
            cs.len(),
            |i: int| i,
        ).to_multiset(),
        forall|i: int|
            0 <= i < cs.len() ==> #[trigger] lectic_sorted(cs, n)[i] == cs[sort_by_key(
                intent_ranks(cs, n),
                cs.len(),
            )[i]],
        forall|a: int, b: int|
            0 <= a < b < cs.len() ==> lectic_rank(#[trigger] lectic_sorted(cs, n)[a].1, n)
                <= lectic_rank(#[trigger] lectic_sorted(cs, n)[b].1, n),
{
    let ranks = intent_ranks(cs, n);
    let perm = sort_by_key(ranks, cs.len());
    lemma_sort_by_key(ranks, cs.len());
    let r = lectic_sorted(cs, n);
    assert forall|i: int| 0 <= i < cs.len() implies 0 <= #[trigger] perm[i] < cs.len() by {
        broadcast use vstd::seq_lib::group_to_multiset_ensures;

        assert(perm.to_multiset().count(perm[i]) > 0);
        assert(Seq::new(cs.len(), |x: int| x).contains(perm[i]));
    }
    assert forall|a: int, b: int| 0 <= a < b < cs.len() implies lectic_rank(#[trigger] r[a].1, n)
        <= lectic_rank(#[trigger] r[b].1, n) by {
        assert(ranks[perm[a]] <= ranks[perm[b]]);
        assert(ranks[perm[a]] == lectic_rank(cs[perm[a]].1, n));
        assert(ranks[perm[b]] == lectic_rank(cs[perm[b]].1, n));
    }
}

/// Inserting `x` where the scan from the back stops.
pub(crate) proof fn lemma_insert_at(p: Seq<int>, keys: Seq<int>, x: int, j: int)
    requires
        0 <= j <= p.len(),
        forall|i: int| j <= i < p.len() ==> keys[#[trigger] p[i]] > keys[x],
        j > 0 ==> keys[p[j - 1]] <= keys[x],
    ensures
        insert_by_key(p, keys, x) == p.insert(j, x),
    decreases p.len(),
{
    if p.len() == 0 {
        assert(p.insert(j, x) =~= seq![x]);
    } else if j == p.len() {
        assert(p.insert(j, x) =~= p.push(x));
    } else {
        let q = p.drop_last();
        assert forall|i: int| j <= i < q.len() implies keys[#[trigger] q[i]] > keys[x] by {
            assert(q[i] == p[i]);
        }
        if j > 0 {
            assert(q[j - 1] == p[j - 1]);
        }
        lemma_insert_at(q, keys, x, j);
        assert(p.insert(j, x) =~= q.insert(j, x).push(p.last()));
    }
}

/// An insertion keeps the entries ordered by key and adds `x` to them.
proof fn lemma_insert_by_key(p: Seq<int>, keys: Seq<int>, x: int)
    requires
        forall|a: int, b: int| 0 <= a < b < p.len() ==> keys[#[trigger] p[a]] <= keys[#[trigger] p[b]],
    ensures
        insert_by_key(p, keys, x).len() == p.len() + 1,
        insert_by_key(p, keys, x).to_multiset() == p.to_multiset().insert(x),
        forall|a: int, b: int|
            0 <= a < b < p.len() + 1 ==> keys[#[trigger] insert_by_key(p, keys, x)[a]]
                <= keys[#[trigger] insert_by_key(p, keys, x)[b]],
    decreases p.len(),
{
    broadcast use vstd::seq_lib::group_to_multiset_ensures;

    let r = insert_by_key(p, keys, x);
    if p.len() == 0 {
        assert(r =~= Seq::<int>::empty().push(x));
    } else if keys[p.last()] <= keys[x] {
    } else {
        let q = p.drop_last();
        assert forall|a: int, b: int| 0 <= a < b < q.len() implies keys[#[trigger] q[a]] <= keys[#[trigger] q[b]] by {
            assert(q[a] == p[a] && q[b] == p[b]);
        }
        lemma_insert_by_key(q, keys, x);
        let s = insert_by_key(q, keys, x);
        assert(p =~= q.push(p.last()));
        assert(r.to_multiset() == s.to_multiset().insert(p.last()));
        assert(p.to_multiset() == q.to_multiset().insert(p.last()));
        assert(r.to_multiset() =~= p.to_multiset().insert(x));
        // Every entry of `s` is `x` or an entry of `q`, all of key at most
        // that of the last entry of `p`.
        assert forall|a: int| 0 <= a < s.len() implies keys[#[trigger] s[a]] <= keys[p.last()] by {
            assert(s.to_multiset().count(s[a]) > 0);
            if s[a] != x {
                assert(q.to_multiset().count(s[a]) > 0);
                assert(q.contains(s[a]));
                let i = choose|i: int| 0 <= i < q.len() && q[i] == s[a];
                assert(p[i] == q[i]);
                assert(keys[p[i]] <= keys[p[p.len() - 1]]);
            }
        }
        assert forall|a: int, b: int| 0 <= a < b < p.len() + 1 implies keys[#[trigger] r[a]] <= keys[#[trigger] r[b]] by {
            if b < s.len() {
                assert(r[a] == s[a] && r[b] == s[b]);
            } else {
                assert(r[a] == s[a]);
            }
        }
    }
}

/// Sorting by key puts the indices `0..k` in an order of nondecreasing keys.
pub proof fn lemma_sort_by_key(keys: Seq<int>, k: nat)
    ensures
        sort_by_key(keys, k).len() == k,
        sort_by_key(keys, k).to_multiset() == Seq::new(k, |i: int| i).to_multiset(),
        forall|a: int, b: int|
            0 <= a < b < k ==> keys[#[trigger] sort_by_key(keys, k)[a]] <= keys[#[trigger] sort_by_key(
                keys,
                k,
            )[b]],
    decreases k,
{
    broadcast use vstd::seq_lib::group_to_multiset_ensures;

    if k == 0 {
        assert(Seq::new(0, |i: int| i) =~= Seq::<int>::empty());
    } else {
        lemma_sort_by_key(keys, (k - 1) as nat);
        lemma_insert_by_key(sort_by_key(keys, (k - 1) as nat), keys, k - 1);
        assert(Seq::new(k, |i: int| i) =~= Seq::new((k - 1) as nat, |i: int| i).push(k - 1));
    }
}

/// The lectic rank of a concept's intent among the subsets of `0..n`, read
/// off its bits, most significant first.
fn intent_rank(intent: &BitSet, n: usize) -> (r: u64)
    requires
        n < 64,
    ensures
        r == lectic_rank(intent@, n as nat),
{
    let mut acc: u64 = 0;
    let mut i: usize = 0;
    while i < n
        invariant
            n < 64,
            i <= n,
            acc == lectic_rank(intent@, i as nat),
        decreases n - i,
    {
        proof {
            crate::canonical_basis::lemma_rank_bound(intent@, i as nat);
            lemma_two_to_small(i as nat);
        }
        let bit: u64 = if intent.contains(i) {
            1
        } else {
            0
        };
        acc = 2 * acc + bit;
        i = i + 1;
    }
    acc
}

proof fn lemma_two_to_small(k: nat)
    requires
        k < 64,
    ensures
        2 * crate::canonical_basis::two_to(k) <= u64::MAX + 1,
{
    lemma_two_to_pow2(k + 1);
    vstd::arithmetic::power2::lemma2_to64();
    if k + 1 < 64 {
        vstd::arithmetic::power2::lemma_pow2_strictly_increases(k + 1, 64);
    }
}

proof fn lemma_two_to_pow2(k: nat)
    ensures
        crate::canonical_basis::two_to(k) == vstd::arithmetic::power2::pow2(k),
    decreases k,
{
    if k == 0 {
        vstd::arithmetic::power2::lemma2_to64();
    } else {
        lemma_two_to_pow2((k - 1) as nat);
        vstd::arithmetic::power2::lemma_pow2_unfold(k);
    }
}

impl<T> FormalContext<T> {
    /// In place sorts the concepts in lectic order of their intents, equal
    /// intents keeping their order.
    pub fn index_sort_lectic_order(&self, concepts: &mut [(BitSet, BitSet)])
        requires
            old(concepts)@.len() > 0,
            self.attributes@.len() < 64,
        ensures
            concept_views(final(concepts)@) == lectic_sorted(
                concept_views(old(concepts)@),
                self.attributes@.len(),
            ),
    {
        let n = self.attributes.len();
        let len = concepts.len();
        let ghost cv = concept_views(concepts@);
        let ghost ranks = intent_ranks(cv, n as nat);
        let mut keys: Vec<u64> = Vec::new();
        let mut c: usize = 0;
        while c < len
            invariant
                n == self.attributes@.len(),
                n < 64,
                len == concepts@.len(),
                cv == concept_views(concepts@),
                ranks == intent_ranks(cv, n as nat),
                c <= len,
                keys@.len() == c,
                forall|i: int| 0 <= i < c ==> keys@[i] as int == #[trigger] ranks[i],
            decreases len - c,
        {
            let r = intent_rank(&concepts[c].1, n);
            keys.push(r);
            c = c + 1;
        }
        // Insertion sort of the positions by key.
        let mut order: Vec<usize> = Vec::new();
        let mut k: usize = 0;
        while k < len
            invariant
                len == concepts@.len(),
                cv == concept_views(concepts@),
                ranks == intent_ranks(cv, n as nat),
                keys@.len() == len,
                forall|i: int| 0 <= i < len ==> keys@[i] as int == #[trigger] ranks[i],
                k <= len,
                order@.len() == k,
                order@.map_values(|x: usize| x as int) == sort_by_key(ranks, k as nat),
                forall|i: int| 0 <= i < k ==> #[trigger] order@[i] < k,
            decreases len - k,
        {
            let ghost p = order@.map_values(|x: usize| x as int);
            proof {
                lemma_sort_by_key(ranks, k as nat);
            }
            let key = keys[k];
            let mut j: usize = order.len();
            while j > 0 && keys[order[j - 1]] > key
                invariant
                    keys@.len() == len,
                    forall|i: int| 0 <= i < len ==> keys@[i] as int == #[trigger] ranks[i],
                    k < len,
                    key == keys@[k as int],
                    order@.len() == k,
                    p == order@.map_values(|x: usize| x as int),
                    forall|i: int| 0 <= i < k ==> #[trigger] order@[i] < k,
                    j <= k,
                    forall|i: int| j <= i < k ==> ranks[#[trigger] p[i]] > ranks[k as int],
                decreases j,
            {
                assert(p[j - 1] == order@[j - 1] as int);
                j = j - 1;
            }
            proof {
                if j > 0 {
                    assert(p[j - 1] == order@[j - 1] as int);
                }
                lemma_insert_at(p, ranks, k as int, j as int);
            }
            let ghost o0 = order@;
            order.insert(j, k);
            proof {
                assert(order@ == o0.insert(j as int, k));
                assert(order@.map_values(|x: usize| x as int) =~= p.insert(j as int, k as int));
                assert forall|i: int| 0 <= i < k + 1 implies #[trigger] order@[i] < k + 1 by {
                    if i < j {
                    } else if i > j {
                        assert(order@[i] == o0[i - 1]);
                    }
                }
            }
            k = k + 1;
        }
        let ghost perm = sort_by_key(ranks, len as nat);
        let mut sorted: Vec<(BitSet, BitSet)> = Vec::new();
        let mut i: usize = 0;
        while i < len
            invariant
                len == concepts@.len(),
                cv == concept_views(concepts@),
                order@.len() == len,
                order@.map_values(|x: usize| x as int) == perm,
                forall|t: int| 0 <= t < len ==> #[trigger] order@[t] < len,
                i <= len,
                sorted@.len() == i,
                forall|t: int| 0 <= t < i ==> #[trigger] concept_views(sorted@)[t] == cv[perm[t]],
            decreases len - i,
        {
            let src = order[i];
            assert(perm[i as int] == src as int);
            let pair = (concepts[src].0.clone(), concepts[src].1.clone());
            let ghost s0 = sorted@;
            sorted.push(pair);
            proof {
                assert(cv[src as int] == (concepts@[src as int].0@, concepts@[src as int].1@));
                assert(concept_views(sorted@) =~= concept_views(s0).push((pair.0@, pair.1@)));
            }
            i = i + 1;
        }
        let mut t: usize = 0;
        while t < len
            invariant
                len == concepts@.len(),
                sorted@.len() == len,
                t <= len,
                forall|x: int| 0 <= x < len ==> #[trigger] concept_views(sorted@)[x] == cv[perm[x]],
                forall|x: int| 0 <= x < t ==> #[trigger] concept_views(concepts@)[x] == cv[perm[x]],
            decreases len - t,
        {
            let pair = (sorted[t].0.clone(), sorted[t].1.clone());
            let ghost c0 = concepts@;
            concepts[t] = pair;
            proof {
                assert(concepts@ == c0.update(t as int, pair));
                assert(concept_views(sorted@)[t as int] == (sorted@[t as int].0@, sorted@[t as int].1@));
                assert(concept_views(concepts@) =~= concept_views(c0).update(t as int, (pair.0@, pair.1@)));
            }
            t = t + 1;
        }
        assert(concept_views(concepts@) =~= lectic_sorted(cv, n as nat));
    }
}

} // verus!
