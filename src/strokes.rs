//! The stroke attribute grammar: a record-start marker followed by
//! whitespace-separated keyword and numeral tokens.
use vstd::prelude::*;

verus! {

/// One keyframe of a stroke: the bat's vertical angle and the distribution of
/// the shot's direction and power, in the game's own integer units.
#[derive(Clone, Copy, Debug, PartialEq, Eq, Structural)]
pub struct StrokeTiming {
    pub vertical: u64,
    pub direction: u64,
    pub direction_area: u64,
    pub power: u64,
    pub power_area: u64,
}

/// A stroke: five keyframes of normal play and five of six-hit play.
#[derive(Clone, Copy, Debug, PartialEq, Eq)]
pub struct Stroke {
    pub timings_normal: [StrokeTiming; 5],
    pub timings_hit6: [StrokeTiming; 5],
}

impl View for Stroke {
    type V = Seq<StrokeTiming>;

    /// The ten keyframes, normal ones first.
    open spec fn view(&self) -> Seq<StrokeTiming> {
        self.timings_normal@ + self.timings_hit6@
    }
}

/// Why a stroke could not be read.
#[derive(Debug, PartialEq, Eq)]
pub enum StrokeError {
    /// The marker was found but a later field is missing or unreadable: the
    /// byte offset of the offending token and up to ten bytes from there.
    Malformed { offset: usize, excerpt: Vec<u8> },
    /// The byte range that a manifest entry selects lies outside the blob.
    OutOfRange,
}

/// What reading a byte range gives, in the terms of the contracts.
pub enum RecordOutcome {
    NotAStroke,
    Parsed(Seq<StrokeTiming>),
    Malformed(int, Seq<u8>),
    OutOfRange,
}

/// The outcome that a result of the stroke reader stands for.
pub open spec fn outcome_of(r: Result<Option<Stroke>, StrokeError>) -> RecordOutcome {
    match r {
        Ok(None) => RecordOutcome::NotAStroke,
        Ok(Some(s)) => RecordOutcome::Parsed(s@),
        Err(StrokeError::Malformed { offset, excerpt }) => RecordOutcome::Malformed(
            offset as int,
            excerpt@,
        ),
        Err(StrokeError::OutOfRange) => RecordOutcome::OutOfRange,
    }
}

/// Space, tab, carriage return and line feed separate tokens.
pub open spec fn is_sep(c: u8) -> bool {
    c == 32 || c == 9 || c == 10 || c == 13
}

/// The end of the run of separators that starts at `p`.
pub open spec fn sep_end(b: Seq<u8>, p: int) -> int
    decreases b.len() - p,
{
    if 0 <= p < b.len() && is_sep(b[p]) {
        sep_end(b, p + 1)
    } else {
        p
    }
}

/// The end of the run of non-separators (a token) that starts at `p`.
pub open spec fn token_end(b: Seq<u8>, p: int) -> int
    decreases b.len() - p,
{
    if 0 <= p < b.len() && !is_sep(b[p]) {
        token_end(b, p + 1)
    } else {
        p
    }
}

/// ASCII lower-casing of a code point.
pub open spec fn ascii_lower(c: int) -> int {
    if 65 <= c <= 90 {
        c + 32
    } else {
        c
    }
}

/// `tok` spells `kw`, ignoring ASCII case.
pub open spec fn ci_eq(tok: Seq<u8>, kw: Seq<char>) -> bool {
    &&& tok.len() == kw.len()
    &&& forall|i: int| 0 <= i < tok.len() ==> ascii_lower(#[trigger] tok[i] as int) == ascii_lower(kw[i] as int)
}

fn skip_token(b: &[u8], p: usize) -> (r: usize)
    requires
        p <= b@.len(),
    ensures
        r == token_end(b@, p as int),
        p <= r <= b@.len(),
{
    let mut i: usize = p;
    while i < b.len() && !(b[i] == 32 || b[i] == 9 || b[i] == 10 || b[i] == 13)
        invariant
            p <= i <= b@.len(),
            token_end(b@, i as int) == token_end(b@, p as int),
        decreases b@.len() - i,
    {
        i = i + 1;
    }
    i
}

fn skip_seps(b: &[u8], p: usize) -> (r: usize)
    requires
        p <= b@.len(),
    ensures
        r == sep_end(b@, p as int),
        p <= r <= b@.len(),
{
    let mut i: usize = p;
    while i < b.len() && (b[i] == 32 || b[i] == 9 || b[i] == 10 || b[i] == 13)
        invariant
            p <= i <= b@.len(),
            sep_end(b@, i as int) == sep_end(b@, p as int),
        decreases b@.len() - i,
    {
        i = i + 1;
    }
    i
}

fn lower(c: u32) -> (r: u32)
    ensures
        r == ascii_lower(c as int),
{
    if 65 <= c && c <= 90 {
        c + 32
    } else {
        c
    }
}

fn spells(b: &[u8], s: usize, e: usize, kw: &str) -> (r: bool)
    requires
        s <= e <= b@.len(),
    ensures
        r == ci_eq(b@.subrange(s as int, e as int), kw@),
{
    let n = kw.unicode_len();
    if e - s != n {
        return false;
    }
    let mut i: usize = 0;
    while i < n
        invariant
            n == kw@.len(),
            e - s == n,
            s <= e <= b@.len(),
            0 <= i <= n,
            forall|j: int| 0 <= j < i ==> ascii_lower(b@[s + j] as int) == ascii_lower(kw@[j] as int),
        decreases n - i,
    {
        let c = kw.get_char(i);
        if lower(b[s + i] as u32) != lower(c as u32) {
            assert(b@.subrange(s as int, e as int)[i as int] == b@[s + i]);
            return false;
        }
        i = i + 1;
    }
    assert forall|j: int| 0 <= j < n implies ascii_lower(
        #[trigger] b@.subrange(s as int, e as int)[j] as int,
    ) == ascii_lower(kw@[j] as int) by {
        assert(b@.subrange(s as int, e as int)[j] == b@[s + j]);
    }
    true
}

/// The keywords of the grammar.
#[derive(Clone, Copy, Debug, PartialEq, Eq, Structural)]
pub enum Keyword {
    StrokeAttributes,
    Type,
    EdgeModifier,
    EdgeModifier6,
    Difficulty,
    Reward,
    Difficulty6,
    Reward6,
    EdgeProb,
    EdgeProb6,
    BowlerTypes,
    BallStumps,
    BallBatsman,
    BallLength,
    Mode,
    Normal,
    SixHit,
    KeyFrame,
    /// A keyframe index, spelled as one digit; indices past 4 spell "4".
    Index(u8),
    Frame,
    Vertical,
    Direction,
    DirectionArea,
    Power,
    PowerArea,
}

pub open spec fn keyword_text(k: Keyword) -> Seq<char> {
    match k {
        Keyword::StrokeAttributes => "StrokeAttributes"@,
        Keyword::Type => "Type"@,
        Keyword::EdgeModifier => "EdgeModifier"@,
        Keyword::EdgeModifier6 => "EdgeModifier6"@,
        Keyword::Difficulty => "Difficulty"@,
        Keyword::Reward => "Reward"@,
        Keyword::Difficulty6 => "Difficulty6"@,
        Keyword::Reward6 => "Reward6"@,
        Keyword::EdgeProb => "EdgeProb"@,
        Keyword::EdgeProb6 => "EdgeProb6"@,
        Keyword::BowlerTypes => "BowlerTypes"@,
        Keyword::BallStumps => "BallStumps"@,
        Keyword::BallBatsman => "BallBatsman"@,
        Keyword::BallLength => "BallLength"@,
        Keyword::Mode => "Mode"@,
        Keyword::Normal => "Normal"@,
        Keyword::SixHit => "6Hit"@,
        Keyword::KeyFrame => "KeyFrame"@,
        Keyword::Index(d) => if d == 0 {
            "0"@
        } else if d == 1 {
            "1"@
        } else if d == 2 {
            "2"@
        } else if d == 3 {
            "3"@
        } else {
            "4"@
        },
        Keyword::Frame => "Frame"@,
        Keyword::Vertical => "Vertical"@,
        Keyword::Direction => "Direction"@,
        Keyword::DirectionArea => "DirectionArea"@,
        Keyword::Power => "Power"@,
        Keyword::PowerArea => "PowerArea"@,
    }
}

fn keyword_str(k: Keyword) -> (r: &'static str)
    ensures
        r@ == keyword_text(k),
{
    match k {
        Keyword::StrokeAttributes => "StrokeAttributes",
        Keyword::Type => "Type",
        Keyword::EdgeModifier => "EdgeModifier",
        Keyword::EdgeModifier6 => "EdgeModifier6",
        Keyword::Difficulty => "Difficulty",
        Keyword::Reward => "Reward",
        Keyword::Difficulty6 => "Difficulty6",
        Keyword::Reward6 => "Reward6",
        Keyword::EdgeProb => "EdgeProb",
        Keyword::EdgeProb6 => "EdgeProb6",
        Keyword::BowlerTypes => "BowlerTypes",
        Keyword::BallStumps => "BallStumps",
        Keyword::BallBatsman => "BallBatsman",
        Keyword::BallLength => "BallLength",
        Keyword::Mode => "Mode",
        Keyword::Normal => "Normal",
        Keyword::SixHit => "6Hit",
        Keyword::KeyFrame => "KeyFrame",
        Keyword::Index(d) => if d == 0 {
            "0"
        } else if d == 1 {
            "1"
        } else if d == 2 {
            "2"
        } else if d == 3 {
            "3"
        } else {
            "4"
        },
        Keyword::Frame => "Frame",
        Keyword::Vertical => "Vertical",
        Keyword::Direction => "Direction",
        Keyword::DirectionArea => "DirectionArea",
        Keyword::Power => "Power",
        Keyword::PowerArea => "PowerArea",
    }
}

pub open spec fn is_digit(c: u8) -> bool {
    48 <= c <= 57
}

pub open spec fn is_alnum(c: u8) -> bool {
    is_digit(c) || 65 <= c <= 90 || 97 <= c <= 122
}

/// The value of a run of decimal digits.
pub open spec fn decimal_value(t: Seq<u8>) -> nat
    decreases t.len(),
{
    if t.len() == 0 {
        0
    } else {
        decimal_value(t.drop_last()) * 10 + (t.last() - 48) as nat
    }
}

/// The token that follows the separators at `p`.
pub open spec fn token_after(b: Seq<u8>, p: int) -> Seq<u8> {
    b.subrange(sep_end(b, p), token_end(b, sep_end(b, p)))
}

/// A numeral after at least one separator at `p`: its value and the position
/// after it, or the offset of the offending token.
pub open spec fn numeral_at(b: Seq<u8>, p: int) -> Result<(u64, int), int> {
    let s = sep_end(b, p);
    let t = token_after(b, p);
    if s > p && t.len() > 0 && (forall|i: int| 0 <= i < t.len() ==> is_digit(#[trigger] t[i]))
        && decimal_value(t) <= u64::MAX {
        Ok((decimal_value(t) as u64, s + t.len()))
    } else {
        Err(s)
    }
}

/// Keyword `k` after at least one separator at `p`.
pub open spec fn keyword_at(b: Seq<u8>, p: int, k: Keyword) -> bool {
    sep_end(b, p) > p && ci_eq(token_after(b, p), keyword_text(k))
}

/// One position of the record layout.
#[derive(Clone, Copy, Debug, PartialEq, Eq, Structural)]
pub enum Slot {
    /// A keyword.
    Key(Keyword),
    /// A word of ASCII letters and digits.
    Word,
    /// A numeral.
    Num,
    /// A keyword and a numeral, or nothing.
    OptNum(Keyword),
}

/// Reading one slot at `p`: the value it holds (zero where it holds no
/// numeral) and the position after it, or the offset of the offending token.
pub open spec fn slot_at(b: Seq<u8>, p: int, slot: Slot) -> Result<(u64, int), int> {
    let s = sep_end(b, p);
    let t = token_after(b, p);
    match slot {
        Slot::Key(k) => if keyword_at(b, p, k) {
            Ok((0, s + t.len()))
        } else {
            Err(s)
        },
        Slot::Word => if s > p && t.len() > 0 && (forall|i: int|
            0 <= i < t.len() ==> is_alnum(#[trigger] t[i])) {
            Ok((0, s + t.len()))
        } else {
            Err(s)
        },
        Slot::Num => numeral_at(b, p),
        Slot::OptNum(k) => if keyword_at(b, p, k) {
            numeral_at(b, s + t.len())
        } else {
            Ok((0, p))
        },
    }
}

proof fn lemma_decimal_prefix(t: Seq<u8>, k: int)
    requires
        0 <= k <= t.len(),
    ensures
        decimal_value(t.subrange(0, k)) <= decimal_value(t),
    decreases t.len(),
{
    if k < t.len() {
        lemma_decimal_prefix(t.drop_last(), k);
        assert(t.drop_last().subrange(0, k) =~= t.subrange(0, k));
    } else {
        assert(t.subrange(0, k) =~= t);
    }
}

fn read_numeral(b: &[u8], p: usize) -> (r: Result<(u64, usize), usize>)
    requires
        p <= b@.len(),
    ensures
        match r {
            Ok((v, q)) => numeral_at(b@, p as int) == Ok::<(u64, int), int>((v, q as int)),
            Err(e) => numeral_at(b@, p as int) == Err::<(u64, int), int>(e as int),
        },
        r matches Ok((_, q)) ==> q <= b@.len(),
        r matches Err(e) ==> e <= b@.len(),
{
    let s = skip_seps(b, p);
    if s == p {
        return Err(s);
    }
    let e = skip_token(b, s);
    if e == s {
        return Err(s);
    }
    let ghost t = b@.subrange(s as int, e as int);
    assert(token_after(b@, p as int) == t);
    let mut v: u64 = 0;
    let mut j: usize = s;
    while j < e
        invariant
            s <= j <= e <= b@.len(),
            t == b@.subrange(s as int, e as int),
            s == sep_end(b@, p as int),
            p < s,
            e == token_end(b@, s as int),
            token_after(b@, p as int) == t,
            forall|i: int| s <= i < j ==> is_digit(#[trigger] b@[i]),
            v == decimal_value(b@.subrange(s as int, j as int)),
        decreases e - j,
    {
        let c = b[j];
        if c < 48 || c > 57 {
            assert(t[j - s] == c && !is_digit(c));
            return Err(s);
        }
        let ghost x = b@.subrange(s as int, j + 1);
        assert(x.drop_last() =~= b@.subrange(s as int, j as int));
        assert(x.last() == c);
        assert(decimal_value(x) == v * 10 + (c - 48));
        match v.checked_mul(10) {
            None => {
                proof {
                    lemma_decimal_prefix(t, j + 1 - s);
                    assert(t.subrange(0, j + 1 - s) =~= b@.subrange(s as int, j + 1));
                }
                return Err(s);
            },
            Some(w) => match w.checked_add((c - 48) as u64) {
                None => {
                    proof {
                        lemma_decimal_prefix(t, j + 1 - s);
                        assert(t.subrange(0, j + 1 - s) =~= b@.subrange(s as int, j + 1));
                    }
                    return Err(s);
                },
                Some(x) => {
                    v = x;
                },
            },
        }
        j = j + 1;
    }
    assert(b@.subrange(s as int, j as int) =~= t);
    Ok((v, e))
}

fn next_token(b: &[u8], p: usize) -> (r: (usize, usize))
    requires
        p <= b@.len(),
    ensures
        r.0 == sep_end(b@, p as int),
        r.1 == token_end(b@, r.0 as int),
        p <= r.0 <= r.1 <= b@.len(),
{
    let s = skip_seps(b, p);
    (s, skip_token(b, s))
}

fn read_slot(b: &[u8], p: usize, slot: Slot) -> (r: Result<(u64, usize), usize>)
    requires
        p <= b@.len(),
    ensures
        match r {
            Ok((v, q)) => slot_at(b@, p as int, slot) == Ok::<(u64, int), int>((v, q as int)),
            Err(e) => slot_at(b@, p as int, slot) == Err::<(u64, int), int>(e as int),
        },
        r matches Ok((_, q)) ==> q <= b@.len(),
        r matches Err(e) ==> e <= b@.len(),
{
    let (s, e) = next_token(b, p);
    assert(token_after(b@, p as int) =~= b@.subrange(s as int, e as int));
    match slot {
        Slot::Key(k) => {
            if s > p && spells(b, s, e, keyword_str(k)) {
                Ok((0, e))
            } else {
                Err(s)
            }
        },
        Slot::Word => {
            if s == p || e == s {
                return Err(s);
            }
            let mut j: usize = s;
            while j < e
                invariant
                    s <= j <= e <= b@.len(),
                    p < s,
                    slot == Slot::Word,
                    s == sep_end(b@, p as int),
                    token_after(b@, p as int) == b@.subrange(s as int, e as int),
                    forall|i: int| s <= i < j ==> is_alnum(#[trigger] b@[i]),
                decreases e - j,
            {
                let c = b[j];
                if !((48 <= c && c <= 57) || (65 <= c && c <= 90) || (97 <= c && c <= 122)) {
                    assert(b@.subrange(s as int, e as int)[j - s] == c);
                    return Err(s);
                }
                j = j + 1;
            }
            assert forall|i: int| 0 <= i < e - s implies is_alnum(
                #[trigger] b@.subrange(s as int, e as int)[i],
            ) by {
                assert(b@.subrange(s as int, e as int)[i] == b@[s + i]);
            }
            Ok((0, e))
        },
        Slot::Num => read_numeral(b, p),
        Slot::OptNum(k) => {
            if s > p && spells(b, s, e, keyword_str(k)) {
                read_numeral(b, e)
            } else {
                Ok((0, p))
            }
        },
    }
}

/// Reading the slots in turn from `p`: the value of each slot and the position
/// after the last, or the offset of the first offending token.
pub open spec fn run_slots(b: Seq<u8>, p: int, slots: Seq<Slot>) -> Result<(Seq<u64>, int), int>
    decreases slots.len(),
{
    if slots.len() == 0 {
        Ok((Seq::empty(), p))
    } else {
        match slot_at(b, p, slots[0]) {
            Err(e) => Err(e),
            Ok((v, q)) => match run_slots(b, q, slots.drop_first()) {
                Err(e) => Err(e),
                Ok((vs, r)) => Ok((seq![v] + vs, r)),
            },
        }
    }
}

/// Header fields: only their shape is checked.
pub open spec fn header_layout() -> Seq<Slot> {
    seq![
        Slot::Key(Keyword::Type), Slot::Word,
        Slot::Key(Keyword::EdgeModifier), Slot::Num,
        Slot::OptNum(Keyword::EdgeModifier6),
        Slot::Key(Keyword::Difficulty), Slot::Num, Slot::Key(Keyword::Reward), Slot::Num,
        Slot::Key(Keyword::Difficulty6), Slot::Num, Slot::Key(Keyword::Reward6), Slot::Num,
        Slot::Key(Keyword::EdgeProb), Slot::Num, Slot::Key(Keyword::EdgeProb6), Slot::Num,
        Slot::Key(Keyword::BowlerTypes), Slot::Num,
        Slot::Key(Keyword::BallStumps), Slot::Num,
        Slot::Key(Keyword::BallBatsman), Slot::Num,
        Slot::Key(Keyword::BallLength), Slot::Num,
    ]
}

pub const HEADER_SLOTS: usize = 25;

pub const KEYFRAME_SLOTS: usize = 16;

pub const KEYFRAMES: usize = 10;

/// Keyframe `k`: keyframes 0 to 4 of normal play, then 0 to 4 of six-hit play.
pub open spec fn keyframe_layout(k: int) -> Seq<Slot> {
    seq![
        Slot::Key(Keyword::Mode),
        Slot::Key(if k < 5 { Keyword::Normal } else { Keyword::SixHit }),
        Slot::Key(Keyword::KeyFrame), Slot::Key(Keyword::Index((k % 5) as u8)),
        Slot::Key(Keyword::Frame), Slot::Num,
        Slot::Key(Keyword::Vertical), Slot::Num,
        Slot::Key(Keyword::Direction), Slot::Num, Slot::Key(Keyword::DirectionArea), Slot::Num,
        Slot::Key(Keyword::Power), Slot::Num, Slot::Key(Keyword::PowerArea), Slot::Num,
    ]
}

/// The header and the first `n` keyframes.
pub open spec fn layout_through(n: nat) -> Seq<Slot>
    decreases n,
{
    if n == 0 {
        header_layout()
    } else {
        layout_through((n - 1) as nat) + keyframe_layout(n - 1)
    }
}

/// Everything that follows the marker.
pub open spec fn record_layout() -> Seq<Slot> {
    layout_through(KEYFRAMES as nat)
}

proof fn lemma_layout_len(n: nat)
    ensures
        layout_through(n).len() == HEADER_SLOTS + KEYFRAME_SLOTS * n,
    decreases n,
{
    if n > 0 {
        lemma_layout_len((n - 1) as nat);
    }
}

fn build_layout() -> (r: Vec<Slot>)
    ensures
        r@ == record_layout(),
{
    let mut v: Vec<Slot> = vec![
        Slot::Key(Keyword::Type), Slot::Word,
        Slot::Key(Keyword::EdgeModifier), Slot::Num,
        Slot::OptNum(Keyword::EdgeModifier6),
        Slot::Key(Keyword::Difficulty), Slot::Num, Slot::Key(Keyword::Reward), Slot::Num,
        Slot::Key(Keyword::Difficulty6), Slot::Num, Slot::Key(Keyword::Reward6), Slot::Num,
        Slot::Key(Keyword::EdgeProb), Slot::Num, Slot::Key(Keyword::EdgeProb6), Slot::Num,
        Slot::Key(Keyword::BowlerTypes), Slot::Num,
        Slot::Key(Keyword::BallStumps), Slot::Num,
        Slot::Key(Keyword::BallBatsman), Slot::Num,
        Slot::Key(Keyword::BallLength), Slot::Num,
    ];
    assert(v@ =~= layout_through(0));
    let mut k: usize = 0;
    while k < KEYFRAMES
        invariant
            k <= KEYFRAMES,
            v@ == layout_through(k as nat),
        decreases KEYFRAMES - k,
    {
        let ghost before = v@;
        let mode = if k < 5 {
            Keyword::Normal
        } else {
            Keyword::SixHit
        };
        v.push(Slot::Key(Keyword::Mode));
        v.push(Slot::Key(mode));
        v.push(Slot::Key(Keyword::KeyFrame));
        v.push(Slot::Key(Keyword::Index((k % 5) as u8)));
        v.push(Slot::Key(Keyword::Frame));
        v.push(Slot::Num);
        v.push(Slot::Key(Keyword::Vertical));
        v.push(Slot::Num);
        v.push(Slot::Key(Keyword::Direction));
        v.push(Slot::Num);
        v.push(Slot::Key(Keyword::DirectionArea));
        v.push(Slot::Num);
        v.push(Slot::Key(Keyword::Power));
        v.push(Slot::Num);
        v.push(Slot::Key(Keyword::PowerArea));
        v.push(Slot::Num);
        assert(v@ =~= before + keyframe_layout(k as int));
        k = k + 1;
    }
    v
}

pub const MARKER_LEN: usize = 16;

/// The first position at or after `i` where the record-start marker
/// `StrokeAttributes` stands, in any ASCII case.
pub open spec fn marker_from(b: Seq<u8>, i: int) -> Option<int>
    decreases b.len() - i,
{
    if i < 0 || i + MARKER_LEN > b.len() {
        None
    } else if ci_eq(b.subrange(i, i + MARKER_LEN), keyword_text(Keyword::StrokeAttributes)) {
        Some(i)
    } else {
        marker_from(b, i + 1)
    }
}

fn find_marker(b: &[u8]) -> (r: Option<usize>)
    ensures
        match r {
            Some(m) => marker_from(b@, 0) == Some(m as int) && m + MARKER_LEN <= b@.len(),
            None => marker_from(b@, 0) is None,
        },
{
    let marker = keyword_str(Keyword::StrokeAttributes);
    let mut i: usize = 0;
    while i < b.len() && b.len() - i >= MARKER_LEN
        invariant
            i <= b@.len(),
            marker@ == keyword_text(Keyword::StrokeAttributes),
            marker_from(b@, i as int) == marker_from(b@, 0),
        decreases b@.len() - i,
    {
        if spells(b, i, i + MARKER_LEN, marker) {
            return Some(i);
        }
        i = i + 1;
    }
    None
}

/// Up to ten bytes from offset `e`, for diagnostics.
pub open spec fn excerpt(b: Seq<u8>, e: int) -> Seq<u8> {
    b.subrange(e, if e + 10 <= b.len() { e + 10 } else { b.len() as int })
}

/// Keyframe `k` of the values read from the record layout.
pub open spec fn timing_in(vals: Seq<u64>, k: int) -> StrokeTiming {
    let base = HEADER_SLOTS + KEYFRAME_SLOTS * k;
    StrokeTiming {
        vertical: vals[base + 7],
        direction: vals[base + 9],
        direction_area: vals[base + 11],
        power: vals[base + 13],
        power_area: vals[base + 15],
    }
}

/// What a byte range holds: no marker makes it no stroke; after the marker the
/// record layout must follow, and its ten keyframes make the stroke.
pub open spec fn record_outcome(b: Seq<u8>) -> RecordOutcome {
    match marker_from(b, 0) {
        None => RecordOutcome::NotAStroke,
        Some(m) => match run_slots(b, m + MARKER_LEN, record_layout()) {
            Err(e) => RecordOutcome::Malformed(e, excerpt(b, e)),
            Ok((vals, _)) => RecordOutcome::Parsed(
                Seq::new(KEYFRAMES as nat, |k: int| timing_in(vals, k)),
            ),
        },
    }
}

/// A run of the remaining slots, preceded by the values `acc` of the slots
/// already read; an error stays as it is.
pub open spec fn resumed(acc: Seq<u64>, rest: Result<(Seq<u64>, int), int>) -> Result<(Seq<u64>, int), int> {
    match rest {
        Ok((vs, r)) => Ok((acc + vs, r)),
        Err(e) => Err(e),
    }
}

/// The bytes of `b` from `lo` up to `hi`.
fn copy_range(b: &[u8], lo: usize, hi: usize) -> (r: Vec<u8>)
    requires
        lo <= hi <= b@.len(),
    ensures
        r@ == b@.subrange(lo as int, hi as int),
{
    let mut r: Vec<u8> = Vec::new();
    let mut i: usize = lo;
    while i < hi
        invariant
            lo <= i <= hi <= b@.len(),
            r@ == b@.subrange(lo as int, i as int),
        decreases hi - i,
    {
        r.push(b[i]);
        assert(r@ =~= b@.subrange(lo as int, i + 1));
        i = i + 1;
    }
    r
}

fn timing_at(vals: &Vec<u64>, k: usize) -> (r: StrokeTiming)
    requires
        vals@.len() == HEADER_SLOTS + KEYFRAME_SLOTS * KEYFRAMES,
        k < KEYFRAMES,
    ensures
        r == timing_in(vals@, k as int),
{
    let base = HEADER_SLOTS + KEYFRAME_SLOTS * k;
    StrokeTiming {
        vertical: vals[base + 7],
        direction: vals[base + 9],
        direction_area: vals[base + 11],
        power: vals[base + 13],
        power_area: vals[base + 15],
    }
}

/// Where reading a stroke record stops: after the separators that follow its
/// last field; at the start where there is no record.
pub open spec fn record_end(b: Seq<u8>) -> int {
    match marker_from(b, 0) {
        None => 0,
        Some(m) => match run_slots(b, m + MARKER_LEN, record_layout()) {
            Err(_) => 0,
            Ok((_, q)) => sep_end(b, q),
        },
    }
}

/// Reads a stroke record and says where it ends: the bytes from that
/// position on are left unread.
pub fn parse_stroke(b: &[u8]) -> (r: Result<(Option<Stroke>, usize), StrokeError>)
    ensures
        outcome_of(
            match r {
                Ok((s, _)) => Ok(s),
                Err(e) => Err(e),
            },
        ) == record_outcome(b@),
        r matches Ok((_, pos)) ==> pos == record_end(b@) && pos <= b@.len(),
{
    let found = find_marker(b);
    let m = match found {
        None => return Ok((None, 0)),
        Some(m) => m,
    };
    assert(m + MARKER_LEN <= b.len());
    let slots = build_layout();
    proof {
        lemma_layout_len(KEYFRAMES as nat);
    }
    let ghost p0 = m + MARKER_LEN;
    let mut vals: Vec<u64> = Vec::new();
    let mut p: usize = m + MARKER_LEN;
    let mut i: usize = 0;
    proof {
        if let Ok((vs, _)) = run_slots(b@, p0, slots@) {
            assert(Seq::<u64>::empty() + vs =~= vs);
        }
    }
    assert(slots@.skip(0) =~= slots@);
    while i < slots.len()
        invariant
            i <= slots@.len(),
            p <= b@.len(),
            slots@ == record_layout(),
            marker_from(b@, 0) == Some(m as int),
            p0 == m + MARKER_LEN,
            vals@.len() == i,
            run_slots(b@, p0, slots@) == resumed(vals@, run_slots(b@, p as int, slots@.skip(i as int))),
        decreases slots@.len() - i,
    {
        let ghost rest = slots@.skip(i as int);
        assert(rest[0] == slots@[i as int]);
        assert(rest.drop_first() =~= slots@.skip(i + 1));
        match read_slot(b, p, slots[i]) {
            Err(e) => {
                let hi = if b.len() - e >= 10 {
                    e + 10
                } else {
                    b.len()
                };
                let excerpt = copy_range(b, e, hi);
                return Err(StrokeError::Malformed { offset: e, excerpt });
            },
            Ok((v, q)) => {
                proof {
                    let tail = run_slots(b@, q as int, slots@.skip(i + 1));
                    if let Ok((vs, _)) = tail {
                        assert(vals@ + (seq![v] + vs) =~= vals@.push(v) + vs);
                    }
                }
                vals.push(v);
                p = q;
            },
        }
        i = i + 1;
    }
    assert(slots@.skip(i as int).len() == 0);
    assert(vals@ + Seq::<u64>::empty() =~= vals@);
    let normal = [
        timing_at(&vals, 0),
        timing_at(&vals, 1),
        timing_at(&vals, 2),
        timing_at(&vals, 3),
        timing_at(&vals, 4),
    ];
    let hit6 = [
        timing_at(&vals, 5),
        timing_at(&vals, 6),
        timing_at(&vals, 7),
        timing_at(&vals, 8),
        timing_at(&vals, 9),
    ];
    let stroke = Stroke { timings_normal: normal, timings_hit6: hit6 };
    assert(stroke@ =~= Seq::new(KEYFRAMES as nat, |k: int| timing_in(vals@, k)));
    let end = skip_seps(b, p);
    Ok((Some(stroke), end))
}

impl Stroke {
    /// Reads a stroke record from a byte range: `Ok(None)` where the range holds
    /// no record-start marker, the stroke where the layout follows the marker,
    /// and `StrokeError::Malformed` where it does not.
    pub fn parse(b: &[u8]) -> (r: Result<Option<Stroke>, StrokeError>)
        ensures
            outcome_of(r) == record_outcome(b@),
    {
        match parse_stroke(b) {
            Ok((stroke, _)) => Ok(stroke),
            Err(e) => Err(e),
        }
    }
}

/// Reading the same bytes twice gives the same outcome, and two strokes read
/// from them agree field for field.
pub proof fn lemma_parse_repeatable(
    b: Seq<u8>,
    r1: Result<Option<Stroke>, StrokeError>,
    r2: Result<Option<Stroke>, StrokeError>,
)
    requires
        outcome_of(r1) == record_outcome(b),
        outcome_of(r2) == record_outcome(b),
    ensures
        outcome_of(r1) == outcome_of(r2),
        r1 matches Ok(Some(s1)) ==> (r2 matches Ok(Some(s2)) && s1 == s2),
{
    if let Ok(Some(s1)) = r1 {
        if let Ok(Some(s2)) = r2 {
            assert(s1@ == s2@);
            assert(s1.timings_normal@ =~= s1@.subrange(0, 5));
            assert(s2.timings_normal@ =~= s2@.subrange(0, 5));
            assert(s1.timings_hit6@ =~= s1@.subrange(5, 10));
            assert(s2.timings_hit6@ =~= s2@.subrange(5, 10));
            assert(s1.timings_normal == s2.timings_normal);
            assert(s1.timings_hit6 == s2.timings_hit6);
        }
    }
}

proof fn lemma_no_marker_from(b: Seq<u8>, i: int)
    requires
        0 <= i,
        forall|j: int| 0 <= j && j + MARKER_LEN <= b.len() ==> !ci_eq(
            #[trigger] b.subrange(j, j + MARKER_LEN),
            keyword_text(Keyword::StrokeAttributes),
        ),
    ensures
        marker_from(b, i) is None,
    decreases b.len() - i,
{
    if i + MARKER_LEN <= b.len() {
        lemma_no_marker_from(b, i + 1);
    }
}

/// Bytes in which the record-start marker stands nowhere are no stroke
/// record, and no error either.
pub proof fn lemma_no_marker_not_a_stroke(b: Seq<u8>)
    requires
        forall|j: int| 0 <= j && j + MARKER_LEN <= b.len() ==> !ci_eq(
            #[trigger] b.subrange(j, j + MARKER_LEN),
            keyword_text(Keyword::StrokeAttributes),
        ),
    ensures
        record_outcome(b) == RecordOutcome::NotAStroke,
{
    lemma_no_marker_from(b, 0);
}

} // verus!
