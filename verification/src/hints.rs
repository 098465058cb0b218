use vstd::prelude::*;

verus! {

/// Predicted outcome of a conditional branch: taken (likely) or not taken
/// (unlikely).
#[derive(Clone, Copy, Debug, PartialEq, Eq, Structural)]
pub enum HintDirection {
    Likely,
    Unlikely,
}

/// Wire encoding of a direction: 1 = likely/true, 0 = unlikely/false.
pub open spec fn dir_code(d: HintDirection) -> u64 {
    match d {
        HintDirection::Likely => 1,
        HintDirection::Unlikely => 0,
    }
}

/// One externally supplied hint: a code-section-relative function index, the
/// byte offset of the hinted instruction inside that function's instruction
/// stream, and the predicted direction.
#[derive(Clone, Copy, Debug, PartialEq, Eq, Structural)]
pub struct HintEntry {
    pub func: u32,
    pub offset: u32,
    pub dir: HintDirection,
}

/// Why a hint text failed to parse. Any of these aborts the run before the
/// module is scanned.
#[derive(Clone, Copy, Debug, PartialEq, Eq, Structural)]
pub enum ParseError {
    /// An empty line, or an indented line without a space between its fields.
    MalformedLine,
    /// A numeric field that is empty, not all decimal digits, or above `u32::MAX`.
    BadNumber,
    /// A direction field whose value is neither 0 nor 1.
    BadDirection,
    /// A function header that repeats an earlier header.
    DuplicateFunction,
    /// An indented branch line before the first function header.
    BranchBeforeFunction,
}

pub open spec fn is_digit(b: u8) -> bool {
    48 <= b && b <= 57
}

pub open spec fn all_digits(s: Seq<u8>) -> bool {
    forall|i: int| 0 <= i < s.len() ==> is_digit(#[trigger] s[i])
}

/// Value of a string of decimal digits.
pub open spec fn dec_val(s: Seq<u8>) -> int
    decreases s.len(),
{
    if s.len() == 0 {
        0
    } else {
        dec_val(s.drop_last()) * 10 + s.last() - 48
    }
}

/// What `<u32>` parsing accepts of a field: one or more decimal digits whose
/// value fits in 32 bits.
pub open spec fn parse_u32_spec(s: Seq<u8>) -> Option<u32> {
    if s.len() == 0 || !all_digits(s) {
        None
    } else if dec_val(s) > u32::MAX {
        None
    } else {
        Some(dec_val(s) as u32)
    }
}

proof fn lemma_dec_val_nonneg(s: Seq<u8>)
    requires
        all_digits(s),
    ensures
        dec_val(s) >= 0,
    decreases s.len(),
{
    if s.len() > 0 {
        assert(all_digits(s.drop_last()));
        lemma_dec_val_nonneg(s.drop_last());
    }
}

/// A digit string is worth at least any of its prefixes.
proof fn lemma_dec_val_mono(s: Seq<u8>, i: int)
    requires
        all_digits(s),
        0 <= i <= s.len(),
    ensures
        dec_val(s.take(i)) <= dec_val(s),
    decreases s.len(),
{
    if i < s.len() {
        assert(all_digits(s.drop_last()));
        assert(s.take(i) =~= s.drop_last().take(i));
        lemma_dec_val_mono(s.drop_last(), i);
        lemma_dec_val_nonneg(s.drop_last());
    } else {
        assert(s.take(i) =~= s);
    }
}

/// Parses `text[lo..hi]` as a decimal `u32`.
#[verifier::loop_isolation(false)]
pub fn parse_u32_range(text: &Vec<u8>, lo: usize, hi: usize) -> (r: Option<u32>)
    requires
        lo <= hi <= text@.len(),
    ensures
        r == parse_u32_spec(text@.subrange(lo as int, hi as int)),
{
    let ghost s = text@.subrange(lo as int, hi as int);
    if lo == hi {
        return None;
    }
    let mut v: u64 = 0;
    let mut i: usize = lo;
    while i < hi
        invariant
            lo <= i <= hi <= text@.len(),
            s == text@.subrange(lo as int, hi as int),
            s.len() == hi - lo,
            all_digits(s.take(i - lo)),
            v == dec_val(s.take(i - lo)),
            v <= u32::MAX,
        decreases hi - i,
    {
        let b = text[i];
        assert(s[i - lo] == text@[i as int]);
        if b < 48 || b > 57 {
            assert(!is_digit(s[i - lo]));
            assert(!all_digits(s));
            return None;
        }
        proof {
            assert(s.take(i - lo + 1).drop_last() =~= s.take(i - lo));
            assert(s.take(i - lo + 1).last() == s[i - lo]);
        }
        v = v * 10 + (b - 48) as u64;
        i = i + 1;
        if v > u32::MAX as u64 {
            proof {
                if all_digits(s) {
                    lemma_dec_val_mono(s, i - lo);
                }
            }
            return None;
        }
    }
    assert(s.take(i - lo) =~= s);
    Some(v as u32)
}

/// `s` with leading spaces removed.
pub open spec fn trim_front(s: Seq<u8>) -> Seq<u8>
    decreases s.len(),
{
    if s.len() > 0 && s[0] == 32 {
        trim_front(s.skip(1))
    } else {
        s
    }
}

/// `s` with trailing spaces removed.
pub open spec fn trim_back(s: Seq<u8>) -> Seq<u8>
    decreases s.len(),
{
    if s.len() > 0 && s.last() == 32 {
        trim_back(s.drop_last())
    } else {
        s
    }
}

/// `s` with leading and trailing spaces removed.
pub open spec fn trim_spaces(s: Seq<u8>) -> Seq<u8> {
    trim_back(trim_front(s))
}

/// Narrows `[lo, hi)` to the subrange that `trim_spaces` keeps.
#[verifier::loop_isolation(false)]
fn trim_range(text: &Vec<u8>, lo: usize, hi: usize) -> (r: (usize, usize))
    requires
        lo <= hi <= text@.len(),
    ensures
        lo <= r.0 <= r.1 <= hi,
        text@.subrange(r.0 as int, r.1 as int) == trim_spaces(
            text@.subrange(lo as int, hi as int),
        ),
{
    let mut a: usize = lo;
    while a < hi && text[a] == 32
        invariant
            lo <= a <= hi <= text@.len(),
            trim_front(text@.subrange(lo as int, hi as int)) == trim_front(
                text@.subrange(a as int, hi as int),
            ),
        decreases hi - a,
    {
        proof {
            assert(text@.subrange(a as int, hi as int).skip(1) =~= text@.subrange(
                a as int + 1,
                hi as int,
            ));
        }
        a = a + 1;
    }
    assert(trim_front(text@.subrange(lo as int, hi as int)) == text@.subrange(
        a as int,
        hi as int,
    ));
    let mut b: usize = hi;
    while b > a && text[b - 1] == 32
        invariant
            lo <= a <= b <= hi <= text@.len(),
            trim_back(text@.subrange(a as int, hi as int)) == trim_back(
                text@.subrange(a as int, b as int),
            ),
        decreases b,
    {
        proof {
            assert(text@.subrange(a as int, b as int).drop_last() =~= text@.subrange(
                a as int,
                b as int - 1,
            ));
        }
        b = b - 1;
    }
    assert(trim_back(text@.subrange(a as int, b as int)) == text@.subrange(a as int, b as int));
    (a, b)
}

/// Index of the first space at or after `i`, or -1 if there is none.
pub open spec fn first_space(s: Seq<u8>, i: int) -> int
    decreases s.len() - i,
{
    if i < 0 || i >= s.len() {
        -1
    } else if s[i] == 32 {
        i
    } else {
        first_space(s, i + 1)
    }
}

/// Finds the first space in `text[lo..hi]`, returning its absolute index.
#[verifier::loop_isolation(false)]
fn find_space(text: &Vec<u8>, lo: usize, hi: usize) -> (r: Option<usize>)
    requires
        lo <= hi <= text@.len(),
    ensures
        match r {
            Some(k) => lo <= k < hi && first_space(text@.subrange(lo as int, hi as int), 0)
                == k - lo,
            None => first_space(text@.subrange(lo as int, hi as int), 0) == -1,
        },
{
    let ghost s = text@.subrange(lo as int, hi as int);
    let mut i: usize = lo;
    while i < hi
        invariant
            lo <= i <= hi <= text@.len(),
            s == text@.subrange(lo as int, hi as int),
            first_space(s, 0) == first_space(s, i - lo),
        decreases hi - i,
    {
        if text[i] == 32 {
            assert(s[i - lo] == 32);
            return Some(i);
        }
        assert(s[i - lo] != 32);
        i = i + 1;
    }
    None
}

/// Running state of the hint-text parser: the function whose block is open,
/// the headers seen so far, and the entries collected so far.
pub struct ParseState {
    pub cur: Option<u32>,
    pub seen: Seq<u32>,
    pub entries: Seq<HintEntry>,
}

pub open spec fn init_state() -> ParseState {
    ParseState { cur: None, seen: Seq::empty(), entries: Seq::empty() }
}

/// Index of the first entry with the given key at or after `i`, or -1.
pub open spec fn find_entry(s: Seq<HintEntry>, func: u32, offset: u32, i: int) -> int
    decreases s.len() - i,
{
    if i < 0 || i >= s.len() {
        -1
    } else if s[i].func == func && s[i].offset == offset {
        i
    } else {
        find_entry(s, func, offset, i + 1)
    }
}

/// Adds an entry, replacing an earlier entry with the same key so that keys
/// stay unique: within one function block a later line for the same offset
/// wins.
pub open spec fn upsert(s: Seq<HintEntry>, e: HintEntry) -> Seq<HintEntry> {
    let k = find_entry(s, e.func, e.offset, 0);
    if k < 0 {
        s.push(e)
    } else {
        s.update(k, e)
    }
}

/// A line with one trailing carriage return removed, as `str::lines` does it.
pub open spec fn strip_cr(line: Seq<u8>) -> Seq<u8> {
    if line.len() > 0 && line.last() == 13 {
        line.drop_last()
    } else {
        line
    }
}

/// What one line of hint text does to the parser state.
///
/// An un-indented line is a function header: a decimal code-section-relative
/// function index, which must not repeat an earlier header. A line starting
/// with a tab is a branch line of the open function block: a decimal byte
/// offset, one space, and a direction of 0 (unlikely) or 1 (likely), with
/// surrounding spaces around the direction tolerated.
pub open spec fn line_step(st: ParseState, raw: Seq<u8>) -> Result<ParseState, ParseError> {
    let line = strip_cr(raw);
    if line.len() == 0 {
        Err(ParseError::MalformedLine)
    } else if line[0] == 9 {
        match st.cur {
            None => Err(ParseError::BranchBeforeFunction),
            Some(f) => {
                let rest = line.skip(1);
                let k = first_space(rest, 0);
                if k < 0 {
                    Err(ParseError::MalformedLine)
                } else {
                    match parse_u32_spec(rest.take(k)) {
                        None => Err(ParseError::BadNumber),
                        Some(off) => match parse_u32_spec(trim_spaces(rest.skip(k + 1))) {
                            None => Err(ParseError::BadNumber),
                            Some(d) => if d == 0 {
                                Ok(ParseState {
                                    entries: upsert(
                                        st.entries,
                                        HintEntry { func: f, offset: off, dir: HintDirection::Unlikely },
                                    ),
                                    ..st
                                })
                            } else if d == 1 {
                                Ok(ParseState {
                                    entries: upsert(
                                        st.entries,
                                        HintEntry { func: f, offset: off, dir: HintDirection::Likely },
                                    ),
                                    ..st
                                })
                            } else {
                                Err(ParseError::BadDirection)
                            },
                        },
                    }
                }
            },
        }
    } else {
        match parse_u32_spec(line) {
            None => Err(ParseError::BadNumber),
            Some(f) => if st.seen.contains(f) {
                Err(ParseError::DuplicateFunction)
            } else {
                Ok(ParseState { cur: Some(f), seen: st.seen.push(f), entries: st.entries })
            },
        }
    }
}

/// Index of the first newline at or after `i`, or the length if there is none.
pub open spec fn line_end(s: Seq<u8>, i: int) -> int
    decreases s.len() - i,
{
    if i < 0 || i >= s.len() {
        i
    } else if s[i] == 10 {
        i
    } else {
        line_end(s, i + 1)
    }
}

proof fn lemma_line_end_bounds(s: Seq<u8>, i: int)
    requires
        0 <= i <= s.len(),
    ensures
        i <= line_end(s, i) <= s.len(),
    decreases s.len() - i,
{
    if i < s.len() && s[i] != 10 {
        lemma_line_end_bounds(s, i + 1);
    }
}

/// The whole hint text from position `i` on, one line at a time. A trailing
/// newline does not introduce a final empty line.
pub open spec fn parse_from(s: Seq<u8>, i: int, st: ParseState) -> Result<
    Seq<HintEntry>,
    ParseError,
>
    decreases s.len() - i,
    via parse_from_dec
{
    if i < 0 || i >= s.len() {
        Ok(st.entries)
    } else {
        let j = line_end(s, i);
        match line_step(st, s.subrange(i, j)) {
            Err(e) => Err(e),
            Ok(st2) => parse_from(s, if j + 1 <= s.len() { j + 1 } else { s.len() as int }, st2),
        }
    }
}

#[via_fn]
proof fn parse_from_dec(s: Seq<u8>, i: int, st: ParseState) {
    if 0 <= i && i < s.len() {
        lemma_line_end_bounds(s, i);
    }
}

/// The meaning of a complete hint text: the entries it defines, or the first
/// error met.
pub open spec fn parse_spec(s: Seq<u8>) -> Result<Seq<HintEntry>, ParseError> {
    parse_from(s, 0, init_state())
}

/// No two entries share a (function, offset) key.
pub open spec fn table_wf(entries: Seq<HintEntry>) -> bool {
    forall|i: int, j: int|
        0 <= i < j < entries.len() ==> !(#[trigger] entries[i].func == #[trigger] entries[j].func
            && entries[i].offset == entries[j].offset)
}

/// First entry matching relative function index `func` at byte offset
/// `offset`, if any.
pub open spec fn lookup_from(
    entries: Seq<HintEntry>,
    func: u32,
    offset: u64,
    i: int,
) -> Option<HintDirection>
    decreases entries.len() - i,
{
    if i < 0 || i >= entries.len() {
        None
    } else if entries[i].func == func && entries[i].offset as u64 == offset {
        Some(entries[i].dir)
    } else {
        lookup_from(entries, func, offset, i + 1)
    }
}

pub open spec fn lookup(entries: Seq<HintEntry>, func: u32, offset: u64) -> Option<
    HintDirection,
> {
    lookup_from(entries, func, offset, 0)
}

/// The hint table: a sparse, read-only overlay of directions keyed by
/// (code-section-relative function index, body-relative byte offset).
#[derive(Debug)]
pub struct HintTable {
    pub entries: Vec<HintEntry>,
}

impl View for HintTable {
    type V = Seq<HintEntry>;

    open spec fn view(&self) -> Seq<HintEntry> {
        self.entries@
    }
}

proof fn lemma_find_entry_none(s: Seq<HintEntry>, func: u32, offset: u32, i: int)
    requires
        0 <= i <= s.len(),
        find_entry(s, func, offset, i) < 0,
    ensures
        forall|j: int| i <= j < s.len() ==> !(#[trigger] s[j].func == func && s[j].offset == offset),
    decreases s.len() - i,
{
    if i < s.len() {
        lemma_find_entry_none(s, func, offset, i + 1);
    }
}

proof fn lemma_find_entry_found(s: Seq<HintEntry>, func: u32, offset: u32, i: int)
    requires
        0 <= i <= s.len(),
        find_entry(s, func, offset, i) >= 0,
    ensures
        i <= find_entry(s, func, offset, i) < s.len(),
        s[find_entry(s, func, offset, i)].func == func,
        s[find_entry(s, func, offset, i)].offset == offset,
    decreases s.len() - i,
{
    if i < s.len() {
        if !(s[i].func == func && s[i].offset == offset) {
            lemma_find_entry_found(s, func, offset, i + 1);
        }
    }
}

/// Replacing-or-appending an entry keeps the keys unique.
proof fn lemma_upsert_wf(s: Seq<HintEntry>, e: HintEntry)
    requires
        table_wf(s),
    ensures
        table_wf(upsert(s, e)),
{
    let k = find_entry(s, e.func, e.offset, 0);
    if k < 0 {
        lemma_find_entry_none(s, e.func, e.offset, 0);
    } else {
        lemma_find_entry_found(s, e.func, e.offset, 0);
    }
}

impl HintTable {
    /// An empty table: every lookup misses.
    pub fn new() -> (r: HintTable)
        ensures
            r@ == Seq::<HintEntry>::empty(),
    {
        HintTable { entries: Vec::new() }
    }

    /// Adds one hint, replacing an earlier hint with the same key.
    #[verifier::loop_isolation(false)]
    pub fn insert(&mut self, e: HintEntry)
        ensures
            final(self)@ == upsert(old(self)@, e),
    {
        let ghost s = self.entries@;
        let mut i: usize = 0;
        while i < self.entries.len()
            invariant
                i <= self.entries@.len(),
                s == self.entries@,
                find_entry(s, e.func, e.offset, 0) == find_entry(s, e.func, e.offset, i as int),
            decreases self.entries@.len() - i,
        {
            let cur = self.entries[i];
            if cur.func == e.func && cur.offset == e.offset {
                assert(find_entry(s, e.func, e.offset, i as int) == i as int);
                self.entries.remove(i);
                self.entries.insert(i, e);
                assert(self.entries@ =~= s.update(i as int, e));
                return;
            }
            i = i + 1;
        }
        self.entries.push(e);
    }

    /// Best-effort hint resolution: the direction recorded for this
    /// (relative function index, byte offset), if any. A miss is not an error.
    #[verifier::loop_isolation(false)]
    pub fn resolve(&self, func: u32, offset: u64) -> (r: Option<HintDirection>)
        ensures
            r == lookup(self@, func, offset),
    {
        let mut i: usize = 0;
        while i < self.entries.len()
            invariant
                i <= self.entries@.len(),
                lookup(self@, func, offset) == lookup_from(self@, func, offset, i as int),
        decreases self.entries@.len() - i,
        {
            let cur = self.entries[i];
            if cur.func == func && cur.offset as u64 == offset {
                return Some(cur.dir);
            }
            i = i + 1;
        }
        None
    }
}

/// Parses the whole hint text. On success the table holds exactly the entries
/// the text defines, with unique keys; on failure the error is the first one
/// the text contains, and nothing is produced.
#[verifier::rlimit(100)]
#[verifier::loop_isolation(false)]
pub fn parse_hint_text(text: &Vec<u8>) -> (r: Result<HintTable, ParseError>)
    ensures
        match r {
            Ok(t) => parse_spec(text@) == Ok::<Seq<HintEntry>, ParseError>(t@) && table_wf(t@),
            Err(e) => parse_spec(text@) == Err::<Seq<HintEntry>, ParseError>(e),
        },
{
    let n = text.len();
    let mut table = HintTable::new();
    let mut cur: Option<u32> = None;
    let mut seen: Vec<u32> = Vec::new();
    let mut i: usize = 0;
    while i < n
        invariant
            n == text@.len(),
            i <= n,
            table_wf(table@),
            parse_spec(text@) == parse_from(
                text@,
                i as int,
                ParseState { cur, seen: seen@, entries: table@ },
            ),
        decreases n - i,
    {
        let ghost st = ParseState { cur, seen: seen@, entries: table@ };
        // find the end of the line
        let mut j: usize = i;
        while j < n && text[j] != 10
            invariant
                i <= j <= n,
                n == text@.len(),
                line_end(text@, i as int) == line_end(text@, j as int),
            decreases n - j,
        {
            j = j + 1;
        }
        assert(line_end(text@, i as int) == j);
        let ghost raw = text@.subrange(i as int, j as int);
        // strip one trailing carriage return
        let mut hi: usize = j;
        if hi > i && text[hi - 1] == 13 {
            hi = hi - 1;
        }
        let ghost line = text@.subrange(i as int, hi as int);
        proof {
            if j > i && text@[j - 1] == 13 {
                assert(raw.drop_last() =~= text@.subrange(i as int, j as int - 1));
            }
            assert(line == strip_cr(raw));
        }
        if hi == i {
            // empty line
            return Err(ParseError::MalformedLine);
        } else if text[i] == 9 {
            match cur {
                None => {
                    return Err(ParseError::BranchBeforeFunction);
                },
                Some(f) => {
                    let ghost rest = line.skip(1);
                    assert(rest =~= text@.subrange(i as int + 1, hi as int));
                    let sp = find_space(text, i + 1, hi);
                    match sp {
                        None => {
                            return Err(ParseError::MalformedLine);
                        },
                        Some(k) => {
                            assert(rest.take(k - (i + 1)) =~= text@.subrange(
                                i as int + 1,
                                k as int,
                            ));
                            let off_parsed = parse_u32_range(text, i + 1, k);
                            match off_parsed {
                                None => {
                                    return Err(ParseError::BadNumber);
                                },
                                Some(off) => {
                                    assert(rest.skip(k - (i + 1) + 1) =~= text@.subrange(
                                        k as int + 1,
                                        hi as int,
                                    ));
                                    let (ta, tb) = trim_range(text, k + 1, hi);
                                    let dir_parsed = parse_u32_range(text, ta, tb);
                                    match dir_parsed {
                                        None => {
                                            return Err(ParseError::BadNumber);
                                        },
                                        Some(d) => {
                                            if d == 0 {
                                                let e = HintEntry {
                                                    func: f,
                                                    offset: off,
                                                    dir: HintDirection::Unlikely,
                                                };
                                                proof {
                                                    lemma_upsert_wf(table@, e);
                                                }
                                                table.insert(e);
                                            } else if d == 1 {
                                                let e = HintEntry {
                                                    func: f,
                                                    offset: off,
                                                    dir: HintDirection::Likely,
                                                };
                                                proof {
                                                    lemma_upsert_wf(table@, e);
                                                }
                                                table.insert(e);
                                            } else {
                                                return Err(ParseError::BadDirection);
                                            }
                                        },
                                    }
                                },
                            }
                        },
                    }
                },
            }
        } else {
            // function header line
            let parsed = parse_u32_range(text, i, hi);
            match parsed {
                None => {
                    return Err(ParseError::BadNumber);
                },
                Some(f) => {
                    let mut m: usize = 0;
                    while m < seen.len()
                        invariant
                            m <= seen@.len(),
                            !seen@.take(m as int).contains(f),
                        decreases seen@.len() - m,
                    {
                        if seen[m] == f {
                            assert(seen@[m as int] == f);
                            assert(seen@.contains(f));
                            assert(line[0] == text@[i as int]);
                            return Err(ParseError::DuplicateFunction);
                        }
                        proof {
                            if seen@.take(m as int + 1).contains(f) {
                                let w = choose|w: int|
                                    0 <= w < m + 1 && #[trigger] seen@.take(m as int + 1)[w] == f;
                                assert(seen@.take(m as int)[w] == f);
                                assert(seen@.take(m as int).contains(f));
                            }
                        }
                        m = m + 1;
                    }
                    assert(seen@.take(seen@.len() as int) =~= seen@);
                    cur = Some(f);
                    seen.push(f);
                },
            }
        }
        // advance to the next line
        proof {
            let stepped = line_step(st, raw);
            assert(stepped == Ok::<ParseState, ParseError>(
                ParseState { cur, seen: seen@, entries: table@ },
            ));
        }
        if j < n {
            i = j + 1;
        } else {
            i = n;
        }
    }
    Ok(table)
}

} // verus!
