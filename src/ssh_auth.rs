//! Scanner for the credential line of an SSH authentication record: a line
//! `publickey <key type> <base64 key>` terminated by a newline.

use core::ops::Range;
use vstd::prelude::*;

verus! {

/// Where the key type and the base64 key of the credential line lie.
pub struct AuthResult {
    pub key_type: Range<usize>,
    pub key: Range<usize>,
}

/// Progress of a scan.
#[derive(Clone, Copy, Debug, PartialEq, Eq, Structural)]
pub enum Status {
    Parsing,
    Success,
    /// Reserved for an explicit validation failure; no scan produces it.
    Error,
}

/// Where the scanner stands within the current line.
#[derive(Clone, Copy, Debug, PartialEq, Eq, Structural)]
pub enum Phase {
    /// At the start of a line, after matching this many bytes of `publickey`.
    Keyword(usize),
    /// After `publickey`, skipping blanks before the key type.
    AwaitKeyType,
    /// Inside the key type.
    KeyType,
    /// After the key type, skipping blanks before the key.
    AwaitKey,
    /// Inside the base64 key.
    Key,
    /// The line cannot match; waiting for its end.
    IgnoreToEol,
}

/// The scanner's state: the byte under it, its offset, the token bounds
/// captured on the current line, and its phase.
#[derive(Clone, Copy, Debug)]
pub struct State {
    pub status: Status,
    pub offset: usize,
    pub byte: u8,
    pub key_type_start: Option<usize>,
    pub key_type_end: Option<usize>,
    pub key_start: Option<usize>,
    pub key_end: Option<usize>,
    pub phase: Phase,
}

pub const NEWLINE: u8 = 10;

pub const SPACE: u8 = 32;

pub const TAB: u8 = 9;

/// The keyword that opens a credential line, `publickey` in ASCII.
pub open spec fn keyword() -> Seq<u8> {
    seq![112u8, 117u8, 98u8, 108u8, 105u8, 99u8, 107u8, 101u8, 121u8]
}

/// A line feed.
pub open spec fn is_newline_byte(b: u8) -> bool {
    b == NEWLINE
}

/// A blank: space or horizontal tab.
pub open spec fn is_blank_byte(b: u8) -> bool {
    b == SPACE || b == TAB
}

/// A byte of the standard base64 alphabet, padding included.
pub open spec fn is_base64_byte(b: u8) -> bool {
    // 'A'..='Z', 'a'..='z', '0'..='9', '+', '/', '='
    (65 <= b <= 90) || (97 <= b <= 122) || (48 <= b <= 57) || b == 43 || b == 47 || b == 61
}

/// `s` with the bounds captured on the current line forgotten.
pub open spec fn cleared(s: State) -> State {
    State { key_type_start: None, key_type_end: None, key_start: None, key_end: None, ..s }
}

/// The state after the scanner has acted on `s.byte`, at `s.offset`.
pub open spec fn next_state(s: State) -> State {
    let b = s.byte;
    match s.phase {
        Phase::Keyword(n) => if is_newline_byte(b) {
            State { phase: Phase::Keyword(0), ..s }
        } else if n < 9 && b == keyword()[n as int] {
            if n + 1 == 9 {
                State { phase: Phase::AwaitKeyType, ..s }
            } else {
                State { phase: Phase::Keyword((n + 1) as usize), ..s }
            }
        } else {
            State { phase: Phase::IgnoreToEol, ..s }
        },
        Phase::AwaitKeyType => if is_newline_byte(b) {
            State { phase: Phase::Keyword(0), ..s }
        } else if !is_blank_byte(b) {
            State { key_type_start: Some(s.offset), phase: Phase::KeyType, ..s }
        } else {
            s
        },
        Phase::KeyType => if is_newline_byte(b) {
            State { phase: Phase::Keyword(0), ..cleared(s) }
        } else if is_blank_byte(b) {
            State { key_type_end: Some(s.offset), phase: Phase::AwaitKey, ..s }
        } else {
            s
        },
        Phase::AwaitKey => if is_newline_byte(b) {
            State { phase: Phase::Keyword(0), ..cleared(s) }
        } else if is_base64_byte(b) {
            State { key_start: Some(s.offset), phase: Phase::Key, ..s }
        } else if !is_blank_byte(b) {
            State { phase: Phase::IgnoreToEol, ..s }
        } else {
            s
        },
        Phase::Key => if is_newline_byte(b) {
            State { key_end: Some(s.offset), status: Status::Success, ..s }
        } else if !is_base64_byte(b) {
            State { phase: Phase::IgnoreToEol, ..s }
        } else {
            s
        },
        Phase::IgnoreToEol => if is_newline_byte(b) {
            State { phase: Phase::Keyword(0), ..cleared(s) }
        } else {
            s
        },
    }
}

/// The state before the first byte.
pub open spec fn initial_state() -> State {
    State {
        status: Status::Parsing,
        offset: 0,
        byte: 0,
        key_type_start: None,
        key_type_end: None,
        key_start: None,
        key_end: None,
        phase: Phase::Keyword(0),
    }
}

/// The state after reading byte `b` at the current offset and moving past it.
pub open spec fn feed(s: State, b: u8) -> State {
    let t = next_state(State { byte: b, ..s });
    State { offset: (t.offset + 1) as usize, ..t }
}

/// The state after the first `n` bytes of `c`; the scan halts on success.
pub open spec fn run(c: Seq<u8>, n: nat) -> State
    decreases n,
{
    if n == 0 {
        initial_state()
    } else {
        let s = run(c, (n - 1) as nat);
        if s.status == Status::Parsing {
            feed(s, c[n - 1])
        } else {
            s
        }
    }
}

/// The ranges `(key type start, key type end, key start, key end)` that a
/// scan of `c` yields.
pub open spec fn scan_ranges(c: Seq<u8>) -> Option<(usize, usize, usize, usize)> {
    let s = run(c, c.len());
    if s.status == Status::Success {
        match (s.key_type_start, s.key_type_end, s.key_start, s.key_end) {
            (Some(a), Some(b), Some(k), Some(d)) => Some((a, b, k, d)),
            _ => None,
        }
    } else {
        None
    }
}

/// The range between two captured bounds, when both are there.
pub open spec fn range_of(start: Option<usize>, end: Option<usize>) -> Option<Range<usize>> {
    match (start, end) {
        (Some(a), Some(b)) => Some(Range { start: a, end: b }),
        _ => None,
    }
}

/// The bounds captured on the current line are ordered and lie before the
/// offset, and each phase past the keyword has captured what it needs.
pub open spec fn scan_wf(s: State) -> bool {
    &&& (s.key_type_start matches Some(a) ==> a < s.offset)
    &&& (s.key_type_end matches Some(b) ==> (s.key_type_start matches Some(a) && a < b < s.offset))
    &&& (s.key_start matches Some(k) ==> (s.key_type_end matches Some(b) && b < k < s.offset))
    &&& (s.key_end matches Some(d) ==> (s.key_start matches Some(k) && k < d < s.offset))
    &&& ((s.phase is Keyword || s.phase == Phase::AwaitKeyType) ==> s.key_type_start is None)
    &&& (s.phase == Phase::KeyType ==> s.key_type_start is Some && s.key_type_end is None)
    &&& (s.phase == Phase::AwaitKey ==> s.key_type_end is Some && s.key_start is None)
    &&& (s.phase == Phase::Key ==> s.key_start is Some)
    &&& (s.phase == Phase::Key && s.status == Status::Parsing ==> s.key_end is None)
    &&& (s.status == Status::Success ==> s.key_end is Some)
    &&& s.status != Status::Error
    &&& (s.phase matches Phase::Keyword(n) ==> n < 9)
}

proof fn lemma_run_wf(c: Seq<u8>, n: nat)
    requires
        n <= c.len() <= usize::MAX,
    ensures
        scan_wf(run(c, n)),
        run(c, n).offset <= n,
        run(c, n).status == Status::Parsing ==> run(c, n).offset == n,
    decreases n,
{
    if n > 0 {
        lemma_run_wf(c, (n - 1) as nat);
        let s = run(c, (n - 1) as nat);
        if s.status == Status::Parsing {
            let t = next_state(State { byte: c[n - 1], ..s });
            assert(t.offset == n - 1);
            assert(scan_wf(State { offset: (t.offset + 1) as usize, ..t }));
        }
    }
}

proof fn lemma_run_halted(c: Seq<u8>, n: nat, m: nat)
    requires
        n <= m,
        run(c, n).status != Status::Parsing,
    ensures
        run(c, m) == run(c, n),
    decreases m - n,
{
    if m > n {
        lemma_run_halted(c, n, (m - 1) as nat);
    }
}

/// The byte of `publickey` at index `n`.
fn keyword_byte(n: usize) -> (r: u8)
    requires
        n < 9,
    ensures
        r == keyword()[n as int],
{
    match n {
        0 => 112,
        1 => 117,
        2 => 98,
        3 => 108,
        4 => 105,
        5 => 99,
        6 => 107,
        7 => 101,
        _ => 121,
    }
}

fn to_range(start: Option<usize>, end: Option<usize>) -> (r: Option<Range<usize>>)
    ensures
        r == range_of(start, end),
{
    if let (Some(start), Some(end)) = (start, end) {
        Some(start..end)
    } else {
        None
    }
}

impl State {
    pub fn is_base64_value(&self) -> (r: bool)
        ensures
            r == is_base64_byte(self.byte),
    {
        let b = self.byte;
        (65 <= b && b <= 90) || (97 <= b && b <= 122) || (48 <= b && b <= 57) || b == 43 || b == 47
            || b == 61
    }

    pub fn is_new_line(&self) -> (r: bool)
        ensures
            r == is_newline_byte(self.byte),
    {
        self.byte == NEWLINE
    }

    pub fn is_white_space(&self) -> (r: bool)
        ensures
            r == is_blank_byte(self.byte),
    {
        self.byte == SPACE || self.byte == TAB
    }

    pub fn key_type(&self) -> (r: Option<Range<usize>>)
        ensures
            r == range_of(self.key_type_start, self.key_type_end),
    {
        to_range(self.key_type_start, self.key_type_end)
    }

    pub fn key(&self) -> (r: Option<Range<usize>>)
        ensures
            r == range_of(self.key_start, self.key_end),
    {
        to_range(self.key_start, self.key_end)
    }

    pub fn reset_for_new_line(&mut self)
        ensures
            *final(self) == cleared(*old(self)),
    {
        self.key_type_start = None;
        self.key_type_end = None;
        self.key_start = None;
        self.key_end = None;
    }

    /// Acts on the byte under the scanner, as the current phase says.
    pub fn step(&mut self)
        requires
            old(self).phase matches Phase::Keyword(n) ==> n < 9,
        ensures
            *final(self) == next_state(*old(self)),
    {
        match self.phase {
            Phase::Keyword(n) => action_keyword(self, n),
            Phase::AwaitKeyType => action_found_keyword(self),
            Phase::KeyType => action_key_type(self),
            Phase::AwaitKey => action_found_key_type(self),
            Phase::Key => action_key(self),
            Phase::IgnoreToEol => action_ignore_to_eol(self),
        }
    }
}

/// Moves on to `next` when the byte is `value`; a newline restarts the line,
/// any other byte gives the line up.
fn expect_value(value: u8, next: Phase, state: &mut State)
    ensures
        *final(state) == (State {
            phase: if is_newline_byte(old(state).byte) {
                Phase::Keyword(0)
            } else if old(state).byte == value {
                next
            } else {
                Phase::IgnoreToEol
            },
            ..*old(state)
        }),
{
    state.phase = if state.is_new_line() {
        Phase::Keyword(0)
    } else if state.byte == value {
        next
    } else {
        Phase::IgnoreToEol
    };
}

fn action_keyword(state: &mut State, n: usize)
    requires
        old(state).phase == Phase::Keyword(n),
        n < 9,
    ensures
        *final(state) == next_state(*old(state)),
{
    let next = if n + 1 == 9 {
        Phase::AwaitKeyType
    } else {
        Phase::Keyword(n + 1)
    };
    expect_value(keyword_byte(n), next, state);
}

fn action_found_keyword(state: &mut State)
    requires
        old(state).phase == Phase::AwaitKeyType,
    ensures
        *final(state) == next_state(*old(state)),
{
    if state.is_new_line() {
        state.phase = Phase::Keyword(0);
    } else if !state.is_white_space() {
        state.key_type_start = Some(state.offset);
        state.phase = Phase::KeyType;
    }
}

fn action_key_type(state: &mut State)
    requires
        old(state).phase == Phase::KeyType,
    ensures
        *final(state) == next_state(*old(state)),
{
    if state.is_new_line() {
        state.reset_for_new_line();
        state.phase = Phase::Keyword(0);
    } else if state.is_white_space() {
        state.key_type_end = Some(state.offset);
        state.phase = Phase::AwaitKey;
    }
}

fn action_found_key_type(state: &mut State)
    requires
        old(state).phase == Phase::AwaitKey,
    ensures
        *final(state) == next_state(*old(state)),
{
    if state.is_new_line() {
        state.reset_for_new_line();
        state.phase = Phase::Keyword(0);
    } else if state.is_base64_value() {
        state.key_start = Some(state.offset);
        state.phase = Phase::Key;
    } else if !state.is_white_space() {
        state.phase = Phase::IgnoreToEol;
    }
}

fn action_key(state: &mut State)
    requires
        old(state).phase == Phase::Key,
    ensures
        *final(state) == next_state(*old(state)),
{
    if state.is_new_line() {
        state.key_end = Some(state.offset);
        state.status = Status::Success;
    } else if !state.is_base64_value() {
        state.phase = Phase::IgnoreToEol;
    }
}

fn action_ignore_to_eol(state: &mut State)
    requires
        old(state).phase == Phase::IgnoreToEol,
    ensures
        *final(state) == next_state(*old(state)),
{
    if state.is_new_line() {
        state.reset_for_new_line();
        state.phase = Phase::Keyword(0);
    }
}

/// Scans `content` for its first credential line and returns where that
/// line's key type and key lie. The scan stops at the newline that ends the
/// first such line; `None` where no line matches.
pub fn parse_user_auth(content: &[u8]) -> (r: Option<AuthResult>)
    ensures
        match r {
            Some(a) => scan_ranges(content@) == Some(
                (a.key_type.start, a.key_type.end, a.key.start, a.key.end),
            ),
            None => scan_ranges(content@) is None,
        },
        r matches Some(a) ==> a.key_type.start < a.key_type.end < a.key.start < a.key.end
            < content@.len(),
        r matches Some(a) ==> credential_line(
            content@,
            line_start(content@, a.key.end as int),
            a.key_type.start as int,
            a.key_type.end as int,
            a.key.start as int,
            a.key.end as int,
        ) && no_line_before(content@, a.key.end as int),
        r is None ==> forall|s: int, a: int, b: int, k: int, d: int|
            #![trigger credential_line(content@, s, a, b, k, d)]
            !credential_line(content@, s, a, b, k, d),
{
    let mut state = State {
        status: Status::Parsing,
        offset: 0,
        byte: 0,
        key_type_start: None,
        key_type_end: None,
        key_start: None,
        key_end: None,
        phase: Phase::Keyword(0),
    };
    let length = content.len();
    proof {
        lemma_run_wf(content@, 0);
    }
    while state.offset < length && matches!(state.status, Status::Parsing)
        invariant
            length == content@.len(),
            state.offset <= length,
            state == run(content@, state.offset as nat),
            scan_wf(state),
        decreases length - state.offset,
    {
        let ghost before = state;
        state.byte = content[state.offset];
        state.step();
        state.offset = state.offset + 1;
        proof {
            assert(state == feed(before, content@[before.offset as int]));
            lemma_run_wf(content@, state.offset as nat);
        }
    }
    proof {
        if state.status != Status::Parsing {
            lemma_run_halted(content@, state.offset as nat, length as nat);
        }
        lemma_scan_finds_first_line(content@);
    }
    match state.status {
        Status::Success => {
            if let (Some(key_type), Some(key)) = (state.key_type(), state.key()) {
                Some(AuthResult { key_type, key })
            } else {
                None
            }
        },
        _ => None,
    }
}

/// The scan of the first `n` bytes depends on those bytes alone.
proof fn lemma_run_prefix(c1: Seq<u8>, c2: Seq<u8>, n: nat)
    requires
        n <= c1.len(),
        n <= c2.len(),
        c1.take(n as int) == c2.take(n as int),
    ensures
        run(c1, n) == run(c2, n),
    decreases n,
{
    if n > 0 {
        assert(c1.take(n - 1) =~= c1.take(n as int).take(n - 1));
        assert(c2.take(n - 1) =~= c2.take(n as int).take(n - 1));
        assert(c1[n - 1] == c1.take(n as int)[n - 1]);
        assert(c2[n - 1] == c2.take(n as int)[n - 1]);
        lemma_run_prefix(c1, c2, (n - 1) as nat);
    }
}

/// Once a credential line has been found, what follows does not matter:
/// the same content with any bytes appended scans to the same ranges.
pub proof fn lemma_scan_ignores_trailing(c: Seq<u8>, extra: Seq<u8>)
    requires
        scan_ranges(c) is Some,
    ensures
        scan_ranges(c + extra) == scan_ranges(c),
{
    let ce = c + extra;
    assert(ce.take(c.len() as int) =~= c.take(c.len() as int));
    lemma_run_prefix(c, ce, c.len());
    lemma_run_halted(ce, c.len(), ce.len());
}

/// The ranges of a successful scan are ordered and lie inside the content.
pub proof fn lemma_scan_ranges_inside(c: Seq<u8>)
    requires
        c.len() <= usize::MAX,
        scan_ranges(c) is Some,
    ensures
        ({
            let (a, b, k, d) = scan_ranges(c).unwrap();
            a < b < k < d < c.len()
        }),
{
    lemma_run_wf(c, c.len());
}

/// The start of the line that holds offset `n`: just past the last newline
/// before `n`, or 0.
pub open spec fn line_start(c: Seq<u8>, n: int) -> int
    decreases n,
{
    if n <= 0 {
        0
    } else if is_newline_byte(c[n - 1]) {
        n
    } else {
        line_start(c, n - 1)
    }
}

/// `c` holds a credential line that starts at `s`: `publickey`, blanks, the
/// key type in `[a, b)`, blanks, the base64 key in `[k, d)`, and the newline
/// at `d`.
pub open spec fn credential_line(c: Seq<u8>, s: int, a: int, b: int, k: int, d: int) -> bool {
    &&& 0 <= s
    &&& (s == 0 || is_newline_byte(c[s - 1]))
    &&& s + 9 <= a < b < k < d < c.len()
    &&& c.subrange(s, s + 9) == keyword()
    &&& forall|i: int| s + 9 <= i < a ==> is_blank_byte(#[trigger] c[i])
    &&& forall|i: int| a <= i < b ==> !is_blank_byte(#[trigger] c[i]) && !is_newline_byte(c[i])
    &&& forall|i: int| b <= i < k ==> is_blank_byte(#[trigger] c[i])
    &&& forall|i: int| k <= i < d ==> is_base64_byte(#[trigger] c[i])
    &&& is_newline_byte(c[d])
}

/// No credential line of `c` ends before offset `n`.
pub open spec fn no_line_before(c: Seq<u8>, n: int) -> bool {
    forall|s: int, a: int, b: int, k: int, d: int|
        #![trigger credential_line(c, s, a, b, k, d)]
        credential_line(c, s, a, b, k, d) ==> n <= d
}

/// No credential line of `c` starts at `s`.
pub open spec fn no_line_at(c: Seq<u8>, s: int) -> bool {
    forall|a: int, b: int, k: int, d: int|
        #![trigger credential_line(c, s, a, b, k, d)]
        !credential_line(c, s, a, b, k, d)
}

/// What the bytes of the current line, up to offset `n`, are in each phase.
spec fn line_so_far(c: Seq<u8>, n: int, st: State) -> bool {
    let ls = line_start(c, n);
    match st.phase {
        Phase::Keyword(j) => n == ls + j && c.subrange(ls, n) == keyword().take(j as int),
        Phase::AwaitKeyType => {
            &&& ls + 9 <= n
            &&& c.subrange(ls, ls + 9) == keyword()
            &&& forall|i: int| ls + 9 <= i < n ==> is_blank_byte(#[trigger] c[i])
        },
        Phase::KeyType => {
            let a = st.key_type_start.unwrap() as int;
            &&& ls + 9 <= a < n
            &&& c.subrange(ls, ls + 9) == keyword()
            &&& forall|i: int| ls + 9 <= i < a ==> is_blank_byte(#[trigger] c[i])
            &&& forall|i: int| a <= i < n ==> !is_blank_byte(#[trigger] c[i]) && !is_newline_byte(c[i])
        },
        Phase::AwaitKey => {
            let a = st.key_type_start.unwrap() as int;
            let b = st.key_type_end.unwrap() as int;
            &&& ls + 9 <= a < b < n
            &&& c.subrange(ls, ls + 9) == keyword()
            &&& forall|i: int| ls + 9 <= i < a ==> is_blank_byte(#[trigger] c[i])
            &&& forall|i: int| a <= i < b ==> !is_blank_byte(#[trigger] c[i]) && !is_newline_byte(c[i])
            &&& forall|i: int| b <= i < n ==> is_blank_byte(#[trigger] c[i])
        },
        Phase::Key => {
            let a = st.key_type_start.unwrap() as int;
            let b = st.key_type_end.unwrap() as int;
            let k = st.key_start.unwrap() as int;
            &&& ls + 9 <= a < b < k < n
            &&& c.subrange(ls, ls + 9) == keyword()
            &&& forall|i: int| ls + 9 <= i < a ==> is_blank_byte(#[trigger] c[i])
            &&& forall|i: int| a <= i < b ==> !is_blank_byte(#[trigger] c[i]) && !is_newline_byte(c[i])
            &&& forall|i: int| b <= i < k ==> is_blank_byte(#[trigger] c[i])
            &&& forall|i: int| k <= i < n ==> is_base64_byte(#[trigger] c[i])
        },
        Phase::IgnoreToEol => no_line_at(c, ls),
    }
}

proof fn lemma_line_start_bounds(c: Seq<u8>, n: int)
    requires
        0 <= n <= c.len(),
    ensures
        0 <= line_start(c, n) <= n,
        line_start(c, n) == 0 || is_newline_byte(c[line_start(c, n) - 1]),
    decreases n,
{
    if n > 0 && !is_newline_byte(c[n - 1]) {
        lemma_line_start_bounds(c, n - 1);
    }
}

/// A credential line holds no newline before its end, so every offset in it
/// lies on the line that starts where it starts.
proof fn lemma_line_start_of_line(c: Seq<u8>, s: int, a: int, b: int, k: int, d: int, m: int)
    requires
        credential_line(c, s, a, b, k, d),
        s <= m <= d,
    ensures
        line_start(c, m) == s,
    decreases m - s,
{
    if m > s {
        let i = m - 1;
        if i < s + 9 {
            assert(c[i] == c.subrange(s, s + 9)[i - s]);
            assert(!is_newline_byte(c[i]));
        } else if i < a {
            assert(is_blank_byte(c[i]));
        } else if i < b {
            assert(!is_newline_byte(c[i]));
        } else if i < k {
            assert(is_blank_byte(c[i]));
        } else {
            assert(is_base64_byte(c[i]));
        }
        lemma_line_start_of_line(c, s, a, b, k, d, m - 1);
    }
}

/// A newline that ends the current line outside the key phase ends no
/// credential line.
proof fn lemma_no_line_ends_at(c: Seq<u8>, n: int, st: State)
    requires
        0 <= n < c.len(),
        is_newline_byte(c[n]),
        scan_wf(st),
        st.phase != Phase::Key,
        line_so_far(c, n, st),
    ensures
        forall|s: int, a: int, b: int, k: int|
            #![trigger credential_line(c, s, a, b, k, n)]
            !credential_line(c, s, a, b, k, n),
{
    let ls = line_start(c, n);
    assert forall|s: int, a: int, b: int, k: int|
        #![trigger credential_line(c, s, a, b, k, n)]
        !credential_line(c, s, a, b, k, n) by {
        if credential_line(c, s, a, b, k, n) {
            lemma_line_start_of_line(c, s, a, b, k, n, n);
            assert(!is_blank_byte(c[a]));
            assert(is_blank_byte(c[b]));
            assert(is_base64_byte(c[k]));
        }
    }
}

/// The byte at `n` rules out a credential line on the current line: a
/// mismatch with the keyword, or a byte outside the alphabet of the key.
proof fn lemma_line_given_up(c: Seq<u8>, n: int, st: State)
    requires
        0 <= n < c.len(),
        !is_newline_byte(c[n]),
        scan_wf(st),
        line_so_far(c, n, st),
        next_state(State { byte: c[n], ..st }).phase == Phase::IgnoreToEol,
        st.phase != Phase::IgnoreToEol,
    ensures
        no_line_at(c, line_start(c, n)),
{
    let ls = line_start(c, n);
    assert forall|a: int, b: int, k: int, d: int|
        #![trigger credential_line(c, ls, a, b, k, d)]
        !credential_line(c, ls, a, b, k, d) by {
        if credential_line(c, ls, a, b, k, d) {
            match st.phase {
                Phase::Keyword(j) => {
                    assert(c[n] == c.subrange(ls, ls + 9)[j as int]);
                },
                Phase::AwaitKey => {
                    let a2 = st.key_type_start.unwrap() as int;
                    let b2 = st.key_type_end.unwrap() as int;
                    assert(!is_blank_byte(c[a]));
                    assert(!is_blank_byte(c[a2]));
                    assert(a == a2);
                    assert(is_blank_byte(c[b2]));
                    assert(is_blank_byte(c[b]));
                    assert(b == b2);
                    assert(is_base64_byte(c[k]));
                },
                Phase::Key => {
                    let a2 = st.key_type_start.unwrap() as int;
                    let b2 = st.key_type_end.unwrap() as int;
                    let k2 = st.key_start.unwrap() as int;
                    assert(!is_blank_byte(c[a]));
                    assert(!is_blank_byte(c[a2]));
                    assert(a == a2);
                    assert(is_blank_byte(c[b2]));
                    assert(is_blank_byte(c[b]));
                    assert(b == b2);
                    assert(is_base64_byte(c[k]));
                    assert(is_base64_byte(c[k2]));
                    assert(k == k2);
                    assert(is_newline_byte(c[d]));
                },
                _ => {},
            }
        }
    }
}

/// The facts that hold of the scan after each byte: while it parses, no
/// credential line has ended and the phase describes the current line; once
/// it succeeds, it holds the first credential line.
spec fn scan_facts(c: Seq<u8>, n: int, st: State) -> bool {
    &&& st.status == Status::Parsing ==> no_line_before(c, n) && line_so_far(c, n, st)
    &&& st.status == Status::Success ==> {
        let d = st.key_end.unwrap() as int;
        &&& credential_line(
            c,
            line_start(c, d),
            st.key_type_start.unwrap() as int,
            st.key_type_end.unwrap() as int,
            st.key_start.unwrap() as int,
            d,
        )
        &&& no_line_before(c, d)
    }
}

proof fn lemma_step(c: Seq<u8>, n: int)
    requires
        0 <= n < c.len() <= usize::MAX,
        run(c, n as nat).status == Status::Parsing,
        scan_wf(run(c, n as nat)),
        run(c, n as nat).offset == n,
        scan_facts(c, n, run(c, n as nat)),
    ensures
        scan_facts(c, n + 1, run(c, (n + 1) as nat)),
{
    let st = run(c, n as nat);
    let t = run(c, (n + 1) as nat);
    let byte = c[n];
    let ls = line_start(c, n);
    lemma_line_start_bounds(c, n);
    assert(t == feed(st, byte));
    if is_newline_byte(byte) {
        assert(line_start(c, n + 1) == n + 1);
        if st.phase == Phase::Key {
            assert(t.status == Status::Success);
            assert(t.key_end == Some(n as usize));
        } else {
            lemma_no_line_ends_at(c, n, st);
            assert(c.subrange(n + 1, n + 1) =~= keyword().take(0));
            assert forall|s: int, a: int, b: int, k: int, d: int|
                #![trigger credential_line(c, s, a, b, k, d)]
                credential_line(c, s, a, b, k, d) implies n + 1 <= d by {
                if d == n {
                    assert(!credential_line(c, s, a, b, k, n));
                }
            }
        }
    } else {
        assert(line_start(c, n + 1) == ls);
        assert forall|s: int, a: int, b: int, k: int, d: int|
            #![trigger credential_line(c, s, a, b, k, d)]
            credential_line(c, s, a, b, k, d) implies n + 1 <= d by {
            if d == n {
                assert(is_newline_byte(c[d]));
            }
        }
        if t.phase == Phase::IgnoreToEol && st.phase != Phase::IgnoreToEol {
            lemma_line_given_up(c, n, st);
        }
        match st.phase {
            Phase::Keyword(j) => {
                if t.phase != Phase::IgnoreToEol {
                    assert(c.subrange(ls, n + 1) =~= keyword().take(j + 1)) by {
                        assert forall|i: int| 0 <= i < j + 1 implies #[trigger] c.subrange(ls, n + 1)[i]
                            == keyword().take(j + 1)[i] by {
                            if i < j {
                                assert(c.subrange(ls, n)[i] == keyword().take(j as int)[i]);
                            }
                        }
                    }
                    if j + 1 == 9 {
                        assert(keyword().take(9) =~= keyword());
                    }
                }
            },
            _ => {},
        }
    }
}

proof fn lemma_scan_facts(c: Seq<u8>, n: nat)
    requires
        n <= c.len() <= usize::MAX,
    ensures
        scan_facts(c, n as int, run(c, n)),
    decreases n,
{
    lemma_run_wf(c, n);
    if n == 0 {
        assert(c.subrange(0, 0) =~= keyword().take(0));
    } else {
        lemma_scan_facts(c, (n - 1) as nat);
        lemma_run_wf(c, (n - 1) as nat);
        if run(c, (n - 1) as nat).status == Status::Parsing {
            lemma_step(c, n - 1);
        }
    }
}

/// The scan finds the first credential line: where it yields ranges, they
/// are those of a credential line and no credential line ends before it;
/// where it yields none, the content holds no credential line.
pub proof fn lemma_scan_finds_first_line(c: Seq<u8>)
    requires
        c.len() <= usize::MAX,
    ensures
        scan_ranges(c) matches Some((a, b, k, d)) ==> credential_line(
            c,
            line_start(c, d as int),
            a as int,
            b as int,
            k as int,
            d as int,
        ) && no_line_before(c, d as int),
        scan_ranges(c) is None ==> forall|s: int, a: int, b: int, k: int, d: int|
            #![trigger credential_line(c, s, a, b, k, d)]
            !credential_line(c, s, a, b, k, d),
{
    lemma_scan_facts(c, c.len());
    lemma_run_wf(c, c.len());
    let st = run(c, c.len());
    if st.status == Status::Parsing {
        assert forall|s: int, a: int, b: int, k: int, d: int|
            #![trigger credential_line(c, s, a, b, k, d)]
            !credential_line(c, s, a, b, k, d) by {
            if credential_line(c, s, a, b, k, d) {
                assert(c.len() <= d);
            }
        }
    }
}

/// A credential line is fixed by where it starts.
proof fn lemma_credential_line_unique(
    c: Seq<u8>,
    s: int,
    a: int,
    b: int,
    k: int,
    d: int,
    a2: int,
    b2: int,
    k2: int,
    d2: int,
)
    requires
        credential_line(c, s, a, b, k, d),
        credential_line(c, s, a2, b2, k2, d2),
    ensures
        a == a2 && b == b2 && k == k2 && d == d2,
{
    assert(!is_blank_byte(c[a]));
    assert(!is_blank_byte(c[a2]));
    assert(a == a2);
    assert(is_blank_byte(c[b]));
    assert(is_blank_byte(c[b2]));
    assert(b == b2);
    assert(is_base64_byte(c[k]));
    assert(is_base64_byte(c[k2]));
    assert(k == k2);
    assert(is_newline_byte(c[d]));
    assert(is_newline_byte(c[d2]));
}

/// A line that ends at its only newline and does not start with the keyword.
pub open spec fn plain_line(line: Seq<u8>) -> bool {
    &&& line.len() >= 1
    &&& is_newline_byte(line[line.len() - 1])
    &&& forall|i: int| 0 <= i < line.len() - 1 ==> !is_newline_byte(#[trigger] line[i])
    &&& !(line.len() >= 9 && line.subrange(0, 9) == keyword())
}

proof fn lemma_shift_line(
    line: Seq<u8>,
    content: Seq<u8>,
    s: int,
    a: int,
    b: int,
    k: int,
    d: int,
)
    requires
        plain_line(line),
    ensures
        credential_line(content, s, a, b, k, d) ==> credential_line(
            line + content,
            s + line.len(),
            a + line.len(),
            b + line.len(),
            k + line.len(),
            d + line.len(),
        ),
        credential_line(line + content, s, a, b, k, d) ==> s >= line.len() && credential_line(
            content,
            s - line.len(),
            a - line.len(),
            b - line.len(),
            k - line.len(),
            d - line.len(),
        ),
{
    let l = line.len() as int;
    let c = line + content;
    if credential_line(content, s, a, b, k, d) {
        assert(c.subrange(s + l, s + l + 9) =~= content.subrange(s, s + 9));
        assert forall|i: int| s + l + 9 <= i < a + l implies is_blank_byte(#[trigger] c[i]) by {
            assert(c[i] == content[i - l]);
        }
        assert forall|i: int| a + l <= i < b + l implies !is_blank_byte(#[trigger] c[i])
            && !is_newline_byte(c[i]) by {
            assert(c[i] == content[i - l]);
        }
        assert forall|i: int| b + l <= i < k + l implies is_blank_byte(#[trigger] c[i]) by {
            assert(c[i] == content[i - l]);
        }
        assert forall|i: int| k + l <= i < d + l implies is_base64_byte(#[trigger] c[i]) by {
            assert(c[i] == content[i - l]);
        }
        assert(c[d + l] == content[d]);
        if s > 0 {
            assert(c[s + l - 1] == content[s - 1]);
        }
    }
    if credential_line(c, s, a, b, k, d) {
        if s == 0 {
            if l >= 9 {
                assert(c.subrange(0, 9) =~= line.subrange(0, 9));
            } else {
                assert(c[l - 1] == c.subrange(0, 9)[l - 1]);
            }
        } else if s < l {
            assert(c[s - 1] == line[s - 1]);
        }
        assert(s >= l);
        assert(c.subrange(s, s + 9) =~= content.subrange(s - l, s - l + 9));
        assert forall|i: int| s - l + 9 <= i < a - l implies is_blank_byte(#[trigger] content[i]) by {
            assert(c[i + l] == content[i]);
        }
        assert forall|i: int| a - l <= i < b - l implies !is_blank_byte(#[trigger] content[i])
            && !is_newline_byte(content[i]) by {
            assert(c[i + l] == content[i]);
        }
        assert forall|i: int| b - l <= i < k - l implies is_blank_byte(#[trigger] content[i]) by {
            assert(c[i + l] == content[i]);
        }
        assert forall|i: int| k - l <= i < d - l implies is_base64_byte(#[trigger] content[i]) by {
            assert(c[i + l] == content[i]);
        }
        assert(c[d] == content[d - l]);
        if s > l {
            assert(c[s - 1] == content[s - l - 1]);
        }
    }
}

/// A line that does not start with `publickey` contributes nothing: putting
/// it before the content shifts the scan's ranges by its length, and leaves
/// no result without one.
pub proof fn lemma_plain_line_is_skipped(line: Seq<u8>, content: Seq<u8>)
    requires
        plain_line(line),
        line.len() + content.len() <= usize::MAX,
    ensures
        scan_ranges(line + content) == match scan_ranges(content) {
            Some((a, b, k, d)) => Some(
                (
                    (a + line.len()) as usize,
                    (b + line.len()) as usize,
                    (k + line.len()) as usize,
                    (d + line.len()) as usize,
                ),
            ),
            None => None,
        },
{
    let l = line.len() as int;
    let c = line + content;
    lemma_scan_finds_first_line(content);
    lemma_scan_finds_first_line(c);
    match scan_ranges(content) {
        Some((a, b, k, d)) => {
            let ls = line_start(content, d as int);
            lemma_shift_line(line, content, ls, a as int, b as int, k as int, d as int);
            assert(credential_line(c, ls + l, a + l, b + l, k + l, d + l));
            assert(scan_ranges(c) is Some);
            let (a2, b2, k2, d2) = scan_ranges(c).unwrap();
            let ls2 = line_start(c, d2 as int);
            lemma_shift_line(line, content, ls2, a2 as int, b2 as int, k2 as int, d2 as int);
            assert(credential_line(content, ls2 - l, a2 - l, b2 - l, k2 - l, d2 - l));
            assert(d <= d2 - l);
            assert(d2 <= d + l);
            lemma_line_start_of_line(content, ls2 - l, a2 - l, b2 - l, k2 - l, d2 - l, d as int);
            lemma_credential_line_unique(
                content,
                ls,
                a as int,
                b as int,
                k as int,
                d as int,
                a2 - l,
                b2 - l,
                k2 - l,
                d2 - l,
            );
        },
        None => {
            if scan_ranges(c) is Some {
                let (a2, b2, k2, d2) = scan_ranges(c).unwrap();
                let ls2 = line_start(c, d2 as int);
                lemma_shift_line(line, content, ls2, a2 as int, b2 as int, k2 as int, d2 as int);
                assert(!credential_line(content, ls2 - l, a2 - l, b2 - l, k2 - l, d2 - l));
            }
        },
    }
}

} // verus!
