//! Text primitives over character sequences.

use vstd::prelude::*;

verus! {

/// Calls `String::push`; claims that the string's characters afterwards are the
/// ones before with `c` added at the end.
#[verifier::external_body]
fn push_char(s: &mut String, c: char)
    ensures
        final(s)@ == old(s)@.push(c),
{
    s.push(c);
}

/// The characters of a string slice, in order.
pub fn chars_of(s: &str) -> (res: Vec<char>)
    ensures
        res@ == s@,
{
    let mut v: Vec<char> = Vec::new();
    for c in it: s.chars()
        invariant
            v@ == it.seq().take(it.index()),
    {
        v.push(c);
    }
    proof {
        broadcast use vstd::string::group_string_axioms;
    }
    assert(v@ =~= s@);
    v
}

/// Builds a `String` holding exactly the given characters.
pub fn string_from(cs: &[char]) -> (res: String)
    ensures
        res@ == cs@,
{
    let mut s = String::new();
    let mut i: usize = 0;
    while i < cs.len()
        invariant
            i <= cs@.len(),
            s@ == cs@.take(i as int),
        decreases cs@.len() - i,
    {
        push_char(&mut s, cs[i]);
        i = i + 1;
        assert(s@ =~= cs@.take(i as int));
    }
    assert(cs@.take(i as int) =~= cs@);
    s
}


/// Unicode `White_Space`: the characters that `char::is_whitespace` accepts.
pub open spec fn is_ws(c: char) -> bool {
    let n = c as int;
    ||| 0x09 <= n <= 0x0D
    ||| n == 0x20
    ||| n == 0x85
    ||| n == 0xA0
    ||| n == 0x1680
    ||| 0x2000 <= n <= 0x200A
    ||| n == 0x2028
    ||| n == 0x2029
    ||| n == 0x202F
    ||| n == 0x205F
    ||| n == 0x3000
}

/// Whether `c` is Unicode white space.
pub fn is_whitespace(c: char) -> (res: bool)
    ensures
        res == is_ws(c),
{
    let n = c as u32;
    (0x09 <= n && n <= 0x0D) || n == 0x20 || n == 0x85 || n == 0xA0 || n == 0x1680 || (0x2000
        <= n && n <= 0x200A) || n == 0x2028 || n == 0x2029 || n == 0x202F || n == 0x205F || n
        == 0x3000
}

/// Number of white-space characters at the start of `s`.
pub open spec fn ws_prefix_len(s: Seq<char>) -> nat
    decreases s.len(),
{
    if s.len() > 0 && is_ws(s[0]) {
        1 + ws_prefix_len(s.drop_first())
    } else {
        0
    }
}

/// Number of white-space characters at the end of `s`.
pub open spec fn ws_suffix_len(s: Seq<char>) -> nat
    decreases s.len(),
{
    if s.len() > 0 && is_ws(s.last()) {
        1 + ws_suffix_len(s.drop_last())
    } else {
        0
    }
}

/// `s` without its leading white space (`str::trim_start`).
pub open spec fn trim_start(s: Seq<char>) -> Seq<char> {
    s.skip(ws_prefix_len(s) as int)
}

/// `s` without its trailing white space (`str::trim_end`).
pub open spec fn trim_end(s: Seq<char>) -> Seq<char> {
    s.take(s.len() - ws_suffix_len(s))
}

/// `s` without leading and trailing white space (`str::trim`).
pub open spec fn trim(s: Seq<char>) -> Seq<char> {
    trim_end(trim_start(s))
}

proof fn lemma_ws_prefix_len(s: Seq<char>, i: int)
    requires
        0 <= i <= s.len(),
        forall|j: int| 0 <= j < i ==> is_ws(#[trigger] s[j]),
        i == s.len() || !is_ws(s[i]),
    ensures
        ws_prefix_len(s) == i,
    decreases i,
{
    if i > 0 {
        let t = s.drop_first();
        assert forall|j: int| 0 <= j < i - 1 implies is_ws(#[trigger] t[j]) by {
            assert(t[j] == s[j + 1]);
        }
        lemma_ws_prefix_len(t, i - 1);
    }
}

proof fn lemma_ws_suffix_len(s: Seq<char>, i: int)
    requires
        0 <= i <= s.len(),
        forall|j: int| s.len() - i <= j < s.len() ==> is_ws(#[trigger] s[j]),
        i == s.len() || !is_ws(s[s.len() - i - 1]),
    ensures
        ws_suffix_len(s) == i,
    decreases i,
{
    if i > 0 {
        let t = s.drop_last();
        assert forall|j: int| t.len() - (i - 1) <= j < t.len() implies is_ws(#[trigger] t[j]) by {
            assert(t[j] == s[j]);
        }
        lemma_ws_suffix_len(t, i - 1);
    }
}

/// The characters `s[from..to]`.
pub fn copy_range(s: &[char], from: usize, to: usize) -> (res: Vec<char>)
    requires
        from <= to <= s@.len(),
    ensures
        res@ == s@.subrange(from as int, to as int),
{
    let mut v: Vec<char> = Vec::new();
    let mut i = from;
    while i < to
        invariant
            from <= i <= to <= s@.len(),
            v@ == s@.subrange(from as int, i as int),
        decreases to - i,
    {
        v.push(s[i]);
        i = i + 1;
        assert(v@ =~= s@.subrange(from as int, i as int));
    }
    v
}

/// `s` without leading and trailing white space.
pub fn trim_chars(s: &[char]) -> (res: Vec<char>)
    ensures
        res@ == trim(s@),
{
    let mut a: usize = 0;
    while a < s.len() && is_whitespace(s[a])
        invariant
            a <= s@.len(),
            forall|j: int| 0 <= j < a ==> is_ws(#[trigger] s@[j]),
        decreases s@.len() - a,
    {
        a = a + 1;
    }
    proof {
        lemma_ws_prefix_len(s@, a as int);
    }
    let ghost t = s@.skip(a as int);
    let mut b: usize = s.len();
    while b > a && is_whitespace(s[b - 1])
        invariant
            a <= b <= s@.len(),
            t == s@.skip(a as int),
            forall|j: int| b <= j < s@.len() ==> is_ws(#[trigger] s@[j]),
        decreases b,
    {
        b = b - 1;
    }
    proof {
        let k = (s@.len() - b) as int;
        assert forall|j: int| t.len() - k <= j < t.len() implies is_ws(#[trigger] t[j]) by {
            assert(t[j] == s@[j + a]);
        }
        if k < t.len() {
            assert(t[t.len() - k - 1] == s@[b - 1]);
        }
        lemma_ws_suffix_len(t, k);
        assert(trim(s@) =~= s@.subrange(a as int, b as int));
    }
    copy_range(s, a, b)
}


/// Index of the first `c` in `s`, or `s.len()` when there is none.
pub open spec fn first_index(s: Seq<char>, c: char) -> nat
    decreases s.len(),
{
    if s.len() == 0 || s[0] == c {
        0
    } else {
        1 + first_index(s.drop_first(), c)
    }
}

proof fn lemma_first_index(s: Seq<char>, c: char, i: int)
    requires
        0 <= i <= s.len(),
        forall|j: int| 0 <= j < i ==> #[trigger] s[j] != c,
        i == s.len() || s[i] == c,
    ensures
        first_index(s, c) == i,
    decreases i,
{
    if i > 0 {
        let t = s.drop_first();
        assert forall|j: int| 0 <= j < i - 1 implies #[trigger] t[j] != c by {
            assert(t[j] == s[j + 1]);
        }
        lemma_first_index(t, c, i - 1);
    }
}

/// A line without the carriage return that ends it, if any.
pub open spec fn strip_cr(l: Seq<char>) -> Seq<char> {
    if l.len() > 0 && l.last() == '\r' {
        l.drop_last()
    } else {
        l
    }
}

/// The lines of `s`, as `str::lines` yields them: split at `\n`, a `\r` before the
/// `\n` dropped, and no empty line after a final `\n`.
pub open spec fn lines(s: Seq<char>) -> Seq<Seq<char>>
    decreases s.len(),
{
    if s.len() == 0 {
        Seq::empty()
    } else {
        let k = first_index(s, '\n');
        if k >= s.len() {
            seq![s]
        } else {
            seq![strip_cr(s.take(k as int))] + lines(s.skip(k + 1int))
        }
    }
}

/// The views of a sequence of character vectors.
pub open spec fn views(v: Seq<Vec<char>>) -> Seq<Seq<char>> {
    v.map_values(|x: Vec<char>| x@)
}

/// The views of a sequence of strings.
pub open spec fn string_views(v: Seq<String>) -> Seq<Seq<char>> {
    v.map_values(|x: String| x@)
}

/// Each line of `s`, trimmed.
pub open spec fn trimmed_lines(s: Seq<char>) -> Seq<Seq<char>> {
    lines(s).map_values(|l: Seq<char>| trim(l))
}

/// The lines of `s`, each trimmed, in order.
pub fn trimmed_lines_of(s: &[char]) -> (res: Vec<Vec<char>>)
    ensures
        views(res@) == trimmed_lines(s@),
{
    let mut out: Vec<Vec<char>> = Vec::new();
    let mut pos: usize = 0;
    let ghost mut done: Seq<Seq<char>> = Seq::empty();
    assert(s@.skip(0) =~= s@);
    while pos < s.len()
        invariant
            pos <= s@.len(),
            lines(s@) =~= done + lines(s@.skip(pos as int)),
            views(out@) =~= done.map_values(|l: Seq<char>| trim(l)),
        decreases s@.len() - pos,
    {
        let ghost rest = s@.skip(pos as int);
        let mut j = pos;
        while j < s.len() && s[j] != '\n'
            invariant
                pos <= j <= s@.len(),
                forall|q: int| pos <= q < j ==> #[trigger] s@[q] != '\n',
            decreases s@.len() - j,
        {
            j = j + 1;
        }
        proof {
            assert forall|q: int| 0 <= q < j - pos implies #[trigger] rest[q] != '\n' by {
                assert(rest[q] == s@[q + pos]);
            }
            lemma_first_index(rest, '\n', j - pos);
        }
        let mut end = j;
        if j < s.len() && j > pos && s[j - 1] == '\r' {
            end = j - 1;
        }
        let raw = copy_range(s, pos, end);
        let line = trim_chars(raw.as_slice());
        proof {
            let l = if j < s@.len() {
                strip_cr(rest.take(j - pos))
            } else {
                rest
            };
            assert(raw@ =~= l);
            if j < s@.len() {
                assert(rest.skip(j - pos + 1) =~= s@.skip(j + 1));
            }
            done = done.push(l);
        }
        let ghost prev = out@;
        out.push(line);
        proof {
            assert(out@ == prev.push(line));
            assert(views(out@) =~= views(prev).push(line@));
        }
        pos = if j < s.len() {
            j + 1
        } else {
            j
        };
        proof {
            if pos == s@.len() {
                assert(s@.skip(pos as int) =~= Seq::<char>::empty());
            }
        }
    }
    out
}


/// Lexicographic order on character sequences by code point, the order of `str`'s
/// `Ord` (UTF-8 preserves code-point order).
pub open spec fn seq_lt(a: Seq<char>, b: Seq<char>) -> bool
    decreases a.len(),
{
    if a.len() == 0 {
        b.len() > 0
    } else if b.len() == 0 {
        false
    } else if a[0] != b[0] {
        (a[0] as int) < (b[0] as int)
    } else {
        seq_lt(a.drop_first(), b.drop_first())
    }
}

/// `a` comes no later than `b`.
pub open spec fn seq_le(a: Seq<char>, b: Seq<char>) -> bool {
    !seq_lt(b, a)
}

/// Each element comes no later than the next ones.
pub open spec fn sorted(s: Seq<Seq<char>>) -> bool {
    forall|i: int, j: int| 0 <= i < j < s.len() ==> seq_le(#[trigger] s[i], #[trigger] s[j])
}

/// Each element comes strictly before the next ones (so none occurs twice).
pub open spec fn strictly_sorted(s: Seq<Seq<char>>) -> bool {
    forall|i: int, j: int| 0 <= i < j < s.len() ==> seq_lt(#[trigger] s[i], #[trigger] s[j])
}

/// The order is irreflexive.
pub proof fn lemma_lt_irreflexive(a: Seq<char>)
    ensures
        !seq_lt(a, a),
    decreases a.len(),
{
    if a.len() > 0 {
        lemma_lt_irreflexive(a.drop_first());
    }
}

/// The order is total: of two different sequences one comes first.
pub proof fn lemma_lt_total(a: Seq<char>, b: Seq<char>)
    ensures
        a =~= b || seq_lt(a, b) || seq_lt(b, a),
        !(seq_lt(a, b) && seq_lt(b, a)),
    decreases a.len(),
{
    if a.len() > 0 && b.len() > 0 {
        lemma_lt_total(a.drop_first(), b.drop_first());
        if a[0] == b[0] && a.drop_first() =~= b.drop_first() {
            assert(a =~= seq![a[0]] + a.drop_first());
            assert(b =~= seq![b[0]] + b.drop_first());
        }
        if a[0] != b[0] {
            assert((a[0] as int) != (b[0] as int));
        }
    }
}

/// The order is transitive.
pub proof fn lemma_lt_transitive(a: Seq<char>, b: Seq<char>, c: Seq<char>)
    requires
        seq_lt(a, b),
        seq_lt(b, c),
    ensures
        seq_lt(a, c),
    decreases a.len(),
{
    if a.len() > 0 && a[0] == b[0] && b[0] == c[0] {
        lemma_lt_transitive(a.drop_first(), b.drop_first(), c.drop_first());
    }
}

proof fn lemma_lt_common_prefix(a: Seq<char>, b: Seq<char>, i: int)
    requires
        0 <= i <= a.len(),
        i <= b.len(),
        forall|j: int| 0 <= j < i ==> a[j] == b[j],
    ensures
        seq_lt(a, b) == seq_lt(a.skip(i), b.skip(i)),
    decreases i,
{
    if i > 0 {
        lemma_lt_common_prefix(a.drop_first(), b.drop_first(), i - 1);
        assert(a.drop_first().skip(i - 1) =~= a.skip(i));
        assert(b.drop_first().skip(i - 1) =~= b.skip(i));
    } else {
        assert(a.skip(0) =~= a);
        assert(b.skip(0) =~= b);
    }
}

/// Whether `a` comes strictly before `b`.
pub fn chars_lt(a: &[char], b: &[char]) -> (res: bool)
    ensures
        res == seq_lt(a@, b@),
{
    let mut i: usize = 0;
    while i < a.len() && i < b.len() && a[i] == b[i]
        invariant
            i <= a@.len(),
            i <= b@.len(),
            forall|j: int| 0 <= j < i ==> a@[j] == b@[j],
        decreases a@.len() - i,
    {
        i = i + 1;
    }
    proof {
        lemma_lt_common_prefix(a@, b@, i as int);
    }
    if i == a.len() {
        i < b.len()
    } else if i == b.len() {
        false
    } else {
        proof {
            assert(a@.skip(i as int)[0] == a@[i as int]);
            assert(b@.skip(i as int)[0] == b@[i as int]);
        }
        a[i] < b[i]
    }
}

/// Whether `a` comes strictly before `b`.
pub fn str_lt(a: &str, b: &str) -> (res: bool)
    ensures
        res == seq_lt(a@, b@),
{
    let ac = chars_of(a);
    let bc = chars_of(b);
    chars_lt(ac.as_slice(), bc.as_slice())
}


/// `parts` with `sep` between each two of them (`[S]::join`).
pub open spec fn join(parts: Seq<Seq<char>>, sep: Seq<char>) -> Seq<char>
    decreases parts.len(),
{
    if parts.len() == 0 {
        Seq::empty()
    } else if parts.len() == 1 {
        parts[0]
    } else {
        join(parts.drop_last(), sep) + sep + parts.last()
    }
}

/// `parts` joined with the character `sep` between each two of them.
pub fn join_chars(parts: &[Vec<char>], sep: char) -> (res: Vec<char>)
    ensures
        res@ == join(views(parts@), seq![sep]),
{
    let mut out: Vec<char> = Vec::new();
    let mut i: usize = 0;
    while i < parts.len()
        invariant
            i <= parts@.len(),
            out@ == join(views(parts@.take(i as int)), seq![sep]),
        decreases parts@.len() - i,
    {
        let ghost before = out@;
        if i > 0 {
            out.push(sep);
        }
        let part = &parts[i];
        let mut j: usize = 0;
        let ghost mid = out@;
        while j < part.len()
            invariant
                j <= part@.len(),
                out@ == mid + part@.take(j as int),
            decreases part@.len() - j,
        {
            out.push(part[j]);
            j = j + 1;
            assert(out@ =~= mid + part@.take(j as int));
        }
        proof {
            let ps = views(parts@.take(i + 1));
            assert(ps.drop_last() =~= views(parts@.take(i as int)));
            assert(part@.take(j as int) =~= part@);
            if i == 0 {
                assert(out@ =~= ps[0]);
            } else {
                assert(out@ =~= join(ps.drop_last(), seq![sep]) + seq![sep] + ps.last());
            }
        }
        i = i + 1;
    }
    assert(parts@.take(parts@.len() as int) =~= parts@);
    out
}

/// Whether `s` starts with `p` (`str::starts_with`).
pub fn has_prefix(s: &[char], p: &[char]) -> (res: bool)
    ensures
        res == p@.is_prefix_of(s@),
{
    if p.len() > s.len() {
        return false;
    }
    let mut i: usize = 0;
    while i < p.len()
        invariant
            i <= p@.len() <= s@.len(),
            forall|j: int| 0 <= j < i ==> p@[j] == s@[j],
        decreases p@.len() - i,
    {
        if p[i] != s[i] {
            return false;
        }
        i = i + 1;
    }
    assert(s@.take(p@.len() as int) =~= p@);
    true
}

/// `s` without the prefix `p` when it has it (`str::strip_prefix`).
pub fn strip_prefix(s: &[char], p: &[char]) -> (res: Option<Vec<char>>)
    ensures
        res is Some <==> p@.is_prefix_of(s@),
        res matches Some(r) ==> r@ == s@.skip(p@.len() as int),
{
    if has_prefix(s, p) {
        Some(copy_range(s, p.len(), s.len()))
    } else {
        None
    }
}

/// Number of `c` at the start of `s`.
pub open spec fn lead_count(s: Seq<char>, c: char) -> nat
    decreases s.len(),
{
    if s.len() > 0 && s[0] == c {
        1 + lead_count(s.drop_first(), c)
    } else {
        0
    }
}

/// Number of `c` at the end of `s`.
pub open spec fn trail_count(s: Seq<char>, c: char) -> nat
    decreases s.len(),
{
    if s.len() > 0 && s.last() == c {
        1 + trail_count(s.drop_last(), c)
    } else {
        0
    }
}

/// `s` without leading `c` (`str::trim_start_matches` with a `char`).
pub open spec fn trim_start_char(s: Seq<char>, c: char) -> Seq<char> {
    s.skip(lead_count(s, c) as int)
}

/// `s` without trailing `c` (`str::trim_end_matches` with a `char`).
pub open spec fn trim_end_char(s: Seq<char>, c: char) -> Seq<char> {
    s.take(s.len() - trail_count(s, c))
}

/// `s` without leading and trailing `c` (`str::trim_matches` with a `char`).
pub open spec fn trim_char(s: Seq<char>, c: char) -> Seq<char> {
    trim_end_char(trim_start_char(s, c), c)
}

proof fn lemma_lead_count(s: Seq<char>, c: char, i: int)
    requires
        0 <= i <= s.len(),
        forall|j: int| 0 <= j < i ==> #[trigger] s[j] == c,
        i == s.len() || s[i] != c,
    ensures
        lead_count(s, c) == i,
    decreases i,
{
    if i > 0 {
        let t = s.drop_first();
        assert forall|j: int| 0 <= j < i - 1 implies #[trigger] t[j] == c by {
            assert(t[j] == s[j + 1]);
        }
        lemma_lead_count(t, c, i - 1);
    }
}

proof fn lemma_trail_count(s: Seq<char>, c: char, i: int)
    requires
        0 <= i <= s.len(),
        forall|j: int| s.len() - i <= j < s.len() ==> #[trigger] s[j] == c,
        i == s.len() || s[s.len() - i - 1] != c,
    ensures
        trail_count(s, c) == i,
    decreases i,
{
    if i > 0 {
        let t = s.drop_last();
        assert forall|j: int| t.len() - (i - 1) <= j < t.len() implies #[trigger] t[j] == c by {
            assert(t[j] == s[j]);
        }
        lemma_trail_count(t, c, i - 1);
    }
}

/// `s` without leading `c`.
pub fn trim_start_char_of(s: &[char], c: char) -> (res: Vec<char>)
    ensures
        res@ == trim_start_char(s@, c),
{
    let mut a: usize = 0;
    while a < s.len() && s[a] == c
        invariant
            a <= s@.len(),
            forall|j: int| 0 <= j < a ==> #[trigger] s@[j] == c,
        decreases s@.len() - a,
    {
        a = a + 1;
    }
    proof {
        lemma_lead_count(s@, c, a as int);
    }
    copy_range(s, a, s.len())
}

/// `s` without trailing `c`.
pub fn trim_end_char_of(s: &[char], c: char) -> (res: Vec<char>)
    ensures
        res@ == trim_end_char(s@, c),
{
    let mut b: usize = s.len();
    while b > 0 && s[b - 1] == c
        invariant
            b <= s@.len(),
            forall|j: int| b <= j < s@.len() ==> #[trigger] s@[j] == c,
        decreases b,
    {
        b = b - 1;
    }
    proof {
        lemma_trail_count(s@, c, (s@.len() - b) as int);
    }
    copy_range(s, 0, b)
}

/// `s` without leading and trailing `c`.
pub fn trim_char_of(s: &[char], c: char) -> (res: Vec<char>)
    ensures
        res@ == trim_char(s@, c),
{
    let t = trim_start_char_of(s, c);
    trim_end_char_of(t.as_slice(), c)
}

/// The pieces of `s` between the occurrences of `c` (`str::split` with a `char`).
pub open spec fn split(s: Seq<char>, c: char) -> Seq<Seq<char>>
    decreases s.len(),
{
    let k = first_index(s, c);
    if k >= s.len() {
        seq![s]
    } else {
        seq![s.take(k as int)] + split(s.skip(k + 1int), c)
    }
}

/// The pieces of `s` between the occurrences of `c`.
pub fn split_chars(s: &[char], c: char) -> (res: Vec<Vec<char>>)
    ensures
        views(res@) == split(s@, c),
{
    let mut out: Vec<Vec<char>> = Vec::new();
    let mut pos: usize = 0;
    let ghost mut done: Seq<Seq<char>> = Seq::empty();
    assert(s@.skip(0) =~= s@);
    loop
        invariant
            pos <= s@.len(),
            split(s@, c) =~= done + split(s@.skip(pos as int), c),
            views(out@) =~= done,
        decreases s@.len() - pos,
    {
        let ghost rest = s@.skip(pos as int);
        let mut j = pos;
        while j < s.len() && s[j] != c
            invariant
                pos <= j <= s@.len(),
                forall|q: int| pos <= q < j ==> #[trigger] s@[q] != c,
            decreases s@.len() - j,
        {
            j = j + 1;
        }
        proof {
            assert forall|q: int| 0 <= q < j - pos implies #[trigger] rest[q] != c by {
                assert(rest[q] == s@[q + pos]);
            }
            lemma_first_index(rest, c, j - pos);
        }
        let piece = copy_range(s, pos, j);
        let ghost prev = out@;
        out.push(piece);
        proof {
            assert(views(out@) =~= views(prev).push(piece@));
            if j < s@.len() {
                assert(piece@ =~= rest.take(j - pos));
                assert(rest.skip(j - pos + 1) =~= s@.skip(j + 1));
            } else {
                assert(piece@ =~= rest);
            }
            done = done.push(piece@);
        }
        if j == s.len() {
            return out;
        }
        pos = j + 1;
    }
}

/// Whether `needle` occurs in `hay` at position `i`.
pub open spec fn occurs_at(hay: Seq<char>, needle: Seq<char>, i: int) -> bool {
    0 <= i && i + needle.len() <= hay.len() && hay.subrange(i, i + needle.len()) == needle
}

/// Whether `needle` occurs in `hay` (`str::contains` with a `&str`).
pub open spec fn contains_seq(hay: Seq<char>, needle: Seq<char>) -> bool {
    exists|i: int| occurs_at(hay, needle, i)
}

/// `needle` is contained in `hay` exactly when it occurs at some position of
/// `hay`: at the start, at the end, or anywhere between.
pub proof fn law_contains_any_position(hay: Seq<char>, needle: Seq<char>, i: int)
    ensures
        contains_seq(hay, needle) <==> exists|k: int|
            0 <= k && k + needle.len() <= hay.len() && #[trigger] hay.subrange(k, k + needle.len())
                == needle,
        0 <= i && i + needle.len() <= hay.len() && hay.subrange(i, i + needle.len()) == needle
            ==> contains_seq(hay, needle),
{
    if 0 <= i && i + needle.len() <= hay.len() && hay.subrange(i, i + needle.len()) == needle {
        assert(occurs_at(hay, needle, i));
    }
    if contains_seq(hay, needle) {
        let k = choose|k: int| occurs_at(hay, needle, k);
        assert(hay.subrange(k, k + needle.len()) == needle);
    }
    assert forall|k: int|
        0 <= k && k + needle.len() <= hay.len() && #[trigger] hay.subrange(k, k + needle.len())
            == needle implies contains_seq(hay, needle) by {
        assert(occurs_at(hay, needle, k));
    }
}

/// Whether `needle` occurs in `hay`.
pub fn contains_chars(hay: &[char], needle: &[char]) -> (res: bool)
    ensures
        res == contains_seq(hay@, needle@),
        res <==> exists|i: int|
            0 <= i && i + needle@.len() <= hay@.len() && #[trigger] hay@.subrange(
                i,
                i + needle@.len(),
            ) == needle@,
{
    proof {
        law_contains_any_position(hay@, needle@, 0);
    }
    if needle.len() > hay.len() {
        return false;
    }
    let mut i: usize = 0;
    while i <= hay.len() - needle.len()
        invariant
            needle@.len() <= hay@.len(),
            i <= hay@.len() - needle@.len() + 1,
            forall|k: int| 0 <= k < i ==> !occurs_at(hay@, needle@, k),
        decreases hay@.len() - needle@.len() + 1 - i,
    {
        let mut j: usize = 0;
        let mut same = true;
        while same && j < needle.len()
            invariant
                i + needle@.len() <= hay@.len(),
                hay@.len() == hay.len(),
                j <= needle@.len(),
                forall|q: int| 0 <= q < j ==> hay@[i + q] == needle@[q],
                !same ==> j < needle@.len() && hay@[i + j] != needle@[j as int],
            decreases needle@.len() - j + (if same { 1int } else { 0int }),
        {
            if hay[i + j] == needle[j] {
                j = j + 1;
            } else {
                same = false;
            }
        }
        if j == needle.len() {
            assert(hay@.subrange(i as int, i + needle@.len()) =~= needle@);
            assert(occurs_at(hay@, needle@, i as int));
            return true;
        }
        assert(hay@.subrange(i as int, i + needle@.len())[j as int] != needle@[j as int]);
        i = i + 1;
    }
    assert forall|k: int| !occurs_at(hay@, needle@, k) by {
        if 0 <= k < i {
        }
    }
    false
}


/// What `str::to_lowercase` gives back for `s`: Unicode lowercasing, which takes
/// tables to state.
pub uninterp spec fn lowercase(s: Seq<char>) -> Seq<char>;

/// Every character of `s` is ASCII.
pub open spec fn all_ascii(s: Seq<char>) -> bool {
    forall|i: int| 0 <= i < s.len() ==> (#[trigger] s[i] as int) < 128
}

/// ASCII lowercasing of one character: `A`..`Z` become `a`..`z`.
pub open spec fn ascii_lower(c: char) -> char {
    if 65 <= (c as int) <= 90 {
        ((c as int) + 32) as char
    } else {
        c
    }
}

/// `s` with `A`..`Z` lowercased.
pub open spec fn ascii_lowered(s: Seq<char>) -> Seq<char> {
    s.map_values(|c: char| ascii_lower(c))
}

/// Calls `str::to_lowercase`. Claims that the result is `lowercase(s)`, a name for
/// Unicode lowercasing that nothing here defines, and that on ASCII text it maps
/// `A`..`Z` to `a`..`z` and keeps every other character.
#[verifier::external_body]
pub(crate) fn to_lowercase(s: &str) -> (res: String)
    ensures
        res@ == lowercase(s@),
        all_ascii(s@) ==> res@ == ascii_lowered(s@),
{
    s.to_lowercase()
}

/// `base` joined with `p` as `Path::join` does on Unix: an absolute `p` replaces
/// `base`; otherwise a `/` separates them unless `base` is empty or ends in one.
pub open spec fn path_join(base: Seq<char>, p: Seq<char>) -> Seq<char> {
    if p.len() > 0 && p[0] == '/' {
        p
    } else if base.len() == 0 || base.last() == '/' {
        base + p
    } else {
        base + seq!['/'] + p
    }
}

/// `base` joined with `p` as `Path::join` does.
pub fn join_path(base: &str, p: &str) -> (res: String)
    ensures
        res@ == path_join(base@, p@),
{
    let b = chars_of(base);
    let q = chars_of(p);
    let mut out: Vec<char> = Vec::new();
    if q.len() > 0 && q[0] == '/' {
        return string_from(q.as_slice());
    }
    let mut i: usize = 0;
    while i < b.len()
        invariant
            i <= b@.len(),
            out@ == b@.take(i as int),
        decreases b@.len() - i,
    {
        out.push(b[i]);
        i = i + 1;
        assert(out@ =~= b@.take(i as int));
    }
    if b.len() > 0 && b[b.len() - 1] != '/' {
        out.push('/');
    }
    let ghost mid = out@;
    let mut j: usize = 0;
    while j < q.len()
        invariant
            j <= q@.len(),
            out@ == mid + q@.take(j as int),
        decreases q@.len() - j,
    {
        out.push(q[j]);
        j = j + 1;
        assert(out@ =~= mid + q@.take(j as int));
    }
    assert(b@.take(i as int) =~= b@);
    assert(q@.take(j as int) =~= q@);
    assert(out@ =~= path_join(base@, p@));
    string_from(out.as_slice())
}

/// The concatenation of two strings.
pub fn concat(a: &str, b: &str) -> (res: String)
    ensures
        res@ == a@ + b@,
{
    let mut v = chars_of(a);
    let w = chars_of(b);
    let mut j: usize = 0;
    let ghost mid = v@;
    while j < w.len()
        invariant
            j <= w@.len(),
            v@ == mid + w@.take(j as int),
        decreases w@.len() - j,
    {
        v.push(w[j]);
        j = j + 1;
        assert(v@ =~= mid + w@.take(j as int));
    }
    assert(w@.take(j as int) =~= w@);
    string_from(v.as_slice())
}


/// `s` holds no line break.
pub open spec fn single_line(s: Seq<char>) -> bool {
    !s.contains('\n')
}

/// `s` is its own trimmed form: empty, or neither starting nor ending with white space.
pub open spec fn is_trimmed(s: Seq<char>) -> bool {
    s.len() == 0 || (!is_ws(s[0]) && !is_ws(s.last()))
}

proof fn lemma_first_index_facts(s: Seq<char>, c: char)
    ensures
        first_index(s, c) <= s.len(),
        forall|j: int| 0 <= j < first_index(s, c) ==> #[trigger] s[j] != c,
        first_index(s, c) < s.len() ==> s[first_index(s, c) as int] == c,
    decreases s.len(),
{
    if s.len() > 0 && s[0] != c {
        let t = s.drop_first();
        lemma_first_index_facts(t, c);
        assert forall|j: int| 0 <= j < first_index(s, c) implies #[trigger] s[j] != c by {
            if j > 0 {
                assert(s[j] == t[j - 1]);
            }
        }
    }
}

proof fn lemma_ws_prefix_facts(s: Seq<char>)
    ensures
        ws_prefix_len(s) <= s.len(),
        forall|j: int| 0 <= j < ws_prefix_len(s) ==> is_ws(#[trigger] s[j]),
        ws_prefix_len(s) < s.len() ==> !is_ws(s[ws_prefix_len(s) as int]),
    decreases s.len(),
{
    if s.len() > 0 && is_ws(s[0]) {
        let t = s.drop_first();
        lemma_ws_prefix_facts(t);
        assert forall|j: int| 0 <= j < ws_prefix_len(s) implies is_ws(#[trigger] s[j]) by {
            if j > 0 {
                assert(s[j] == t[j - 1]);
            }
        }
    }
}

proof fn lemma_ws_suffix_facts(s: Seq<char>)
    ensures
        ws_suffix_len(s) <= s.len(),
        forall|j: int| s.len() - ws_suffix_len(s) <= j < s.len() ==> is_ws(#[trigger] s[j]),
        ws_suffix_len(s) < s.len() ==> !is_ws(s[s.len() - ws_suffix_len(s) - 1]),
    decreases s.len(),
{
    if s.len() > 0 && is_ws(s.last()) {
        let t = s.drop_last();
        lemma_ws_suffix_facts(t);
        assert forall|j: int| s.len() - ws_suffix_len(s) <= j < s.len() implies is_ws(
            #[trigger] s[j],
        ) by {
            if j < s.len() - 1 {
                assert(s[j] == t[j]);
            }
        }
    }
}

/// A trimmed sequence is a piece of the sequence it came from that neither starts nor ends with
/// white space.
pub proof fn lemma_trim_is_trimmed(s: Seq<char>)
    ensures
        is_trimmed(trim(s)),
        exists|a: int, b: int| 0 <= a <= b <= s.len() && trim(s) == s.subrange(a, b),
{
    let a = ws_prefix_len(s) as int;
    lemma_ws_prefix_facts(s);
    let t = trim_start(s);
    lemma_ws_suffix_facts(t);
    let b = t.len() - ws_suffix_len(t);
    assert(trim(s) =~= s.subrange(a, a + b));
    if trim(s).len() > 0 {
        assert(trim(s)[0] == t[0]);
        assert(t[0] == s[a]);
        assert(trim(s).last() == t[b - 1]);
    }
}

/// A sequence that neither starts nor ends with white space is its own trimmed form.
pub proof fn lemma_trimmed_fixed(s: Seq<char>)
    requires
        is_trimmed(s),
    ensures
        trim(s) == s,
{
    lemma_ws_prefix_len(s, 0);
    assert(trim_start(s) =~= s);
    lemma_ws_suffix_len(s, 0);
    assert(trim(s) =~= s);
}

/// A piece of a single-line sequence is single-line.
pub proof fn lemma_subrange_single_line(s: Seq<char>, a: int, b: int)
    requires
        single_line(s),
        0 <= a <= b <= s.len(),
    ensures
        single_line(s.subrange(a, b)),
{
    if s.subrange(a, b).contains('\n') {
        let k = choose|k: int| 0 <= k < b - a && s.subrange(a, b)[k] == '\n';
        assert(s[a + k] == '\n');
    }
}

/// No line of `s` holds a line break.
pub proof fn lemma_lines_single(s: Seq<char>)
    ensures
        forall|i: int| 0 <= i < lines(s).len() ==> single_line(#[trigger] lines(s)[i]),
    decreases s.len(),
{
    if s.len() > 0 {
        let k = first_index(s, '\n');
        lemma_first_index_facts(s, '\n');
        if k < s.len() {
            let first = strip_cr(s.take(k as int));
            assert(single_line(s.take(k as int))) by {
                if s.take(k as int).contains('\n') {
                    let j = choose|j: int| 0 <= j < k && s.take(k as int)[j] == '\n';
                    assert(s[j] == '\n');
                }
            }
            lemma_subrange_single_line(s.take(k as int), 0, first.len() as int);
            assert(first =~= s.take(k as int).subrange(0, first.len() as int));
            lemma_lines_single(s.skip(k + 1int));
            let rest = lines(s.skip(k + 1int));
            assert forall|i: int| 0 <= i < lines(s).len() implies single_line(#[trigger] lines(s)[i]) by {
                if i > 0 {
                    assert(lines(s)[i] == rest[i - 1]);
                }
            }
        } else {
            assert(single_line(s)) by {
                if s.contains('\n') {
                    let j = choose|j: int| 0 <= j < s.len() && s[j] == '\n';
                }
            }
        }
    }
}

/// Every trimmed line of `s` is trimmed and single-line.
pub proof fn lemma_trimmed_lines_facts(s: Seq<char>)
    ensures
        forall|i: int|
            0 <= i < trimmed_lines(s).len() ==> is_trimmed(#[trigger] trimmed_lines(s)[i])
                && single_line(trimmed_lines(s)[i]),
{
    lemma_lines_single(s);
    assert forall|i: int| 0 <= i < trimmed_lines(s).len() implies is_trimmed(
        #[trigger] trimmed_lines(s)[i],
    ) && single_line(trimmed_lines(s)[i]) by {
        let l = lines(s)[i];
        lemma_trim_is_trimmed(l);
        let (a, b) = choose|a: int, b: int| 0 <= a <= b <= l.len() && trim(l) == l.subrange(a, b);
        lemma_subrange_single_line(l, a, b);
    }
}

proof fn lemma_lines_cons(x: Seq<char>, r: Seq<char>)
    requires
        single_line(x),
    ensures
        lines(x + seq!['\n'] + r) == seq![strip_cr(x)] + lines(r),
{
    let s = x + seq!['\n'] + r;
    assert forall|j: int| 0 <= j < x.len() implies #[trigger] s[j] != '\n' by {
        assert(s[j] == x[j]);
    }
    lemma_first_index(s, '\n', x.len() as int);
    assert(s.take(x.len() as int) =~= x);
    assert(s.skip(x.len() + 1int) =~= r);
}

proof fn lemma_lines_one(x: Seq<char>)
    requires
        single_line(x),
        x.len() > 0,
    ensures
        lines(x) == seq![x],
{
    assert forall|j: int| 0 <= j < x.len() implies #[trigger] x[j] != '\n' by {
    }
    lemma_first_index(x, '\n', x.len() as int);
}

/// `join` seen from the front.
pub proof fn lemma_join_front(l: Seq<Seq<char>>, sep: Seq<char>)
    requires
        l.len() >= 2,
    ensures
        join(l, sep) == l[0] + sep + join(l.drop_first(), sep),
    decreases l.len(),
{
    if l.len() == 2 {
        assert(l.drop_last().len() == 1);
        assert(l.drop_first().len() == 1);
        assert(join(l.drop_last(), sep) == l[0]);
        assert(join(l.drop_first(), sep) == l[1]);
        assert(join(l, sep) =~= l[0] + sep + join(l.drop_first(), sep));
    } else {
        lemma_join_front(l.drop_last(), sep);
        assert(l.drop_last().drop_first() =~= l.drop_first().drop_last());
        assert(l.drop_first().last() == l.last());
        assert(join(l, sep) =~= l[0] + sep + join(l.drop_first(), sep));
    }
}

/// Each element is a single line that does not end in a carriage return.
pub open spec fn plain_lines(l: Seq<Seq<char>>) -> bool {
    forall|i: int| 0 <= i < l.len() ==> single_line(#[trigger] l[i]) && strip_cr(l[i]) == l[i]
}

/// Writing lines each followed by a line break, and reading the lines back, gives
/// the same lines.
pub proof fn lemma_lines_of_terminated(l: Seq<Seq<char>>)
    requires
        plain_lines(l),
    ensures
        l.len() > 0 ==> lines(join(l, seq!['\n']) + seq!['\n']) == l,
    decreases l.len(),
{
    if l.len() == 1 {
        assert(join(l, seq!['\n']) == l[0]);
        lemma_lines_cons(l[0], Seq::empty());
        assert(l[0] + seq!['\n'] + Seq::<char>::empty() =~= join(l, seq!['\n']) + seq!['\n']);
        assert(lines(join(l, seq!['\n']) + seq!['\n']) =~= seq![l[0]]);
        assert(l =~= seq![l[0]]);
    } else if l.len() >= 2 {
        lemma_join_front(l, seq!['\n']);
        let t = l.drop_first();
        assert(plain_lines(t)) by {
            assert forall|i: int| 0 <= i < t.len() implies single_line(#[trigger] t[i])
                && strip_cr(t[i]) == t[i] by {
                assert(t[i] == l[i + 1]);
            }
        }
        lemma_lines_of_terminated(t);
        let r = join(t, seq!['\n']) + seq!['\n'];
        lemma_lines_cons(l[0], r);
        assert(join(l, seq!['\n']) + seq!['\n'] =~= l[0] + seq!['\n'] + r);
        assert(l =~= seq![l[0]] + t);
    }
}

/// Writing lines separated by line breaks, and reading the lines back, gives the
/// same lines when the last one is not empty.
pub proof fn lemma_lines_of_joined(l: Seq<Seq<char>>)
    requires
        plain_lines(l),
        l.len() > 0 ==> l.last().len() > 0,
    ensures
        lines(join(l, seq!['\n'])) == l,
    decreases l.len(),
{
    if l.len() == 0 {
        assert(lines(join(l, seq!['\n'])) =~= l);
    } else if l.len() == 1 {
        lemma_lines_one(l[0]);
        assert(l =~= seq![l[0]]);
    } else {
        lemma_join_front(l, seq!['\n']);
        let t = l.drop_first();
        assert(plain_lines(t)) by {
            assert forall|i: int| 0 <= i < t.len() implies single_line(#[trigger] t[i])
                && strip_cr(t[i]) == t[i] by {
                assert(t[i] == l[i + 1]);
            }
        }
        lemma_lines_of_joined(t);
        lemma_lines_cons(l[0], join(t, seq!['\n']));
        assert(l =~= seq![l[0]] + t);
    }
}


/// Whether two character sequences are equal.
pub fn chars_eq(a: &[char], b: &[char]) -> (res: bool)
    ensures
        res == (a@ == b@),
{
    if a.len() != b.len() {
        return false;
    }
    let mut i: usize = 0;
    while i < a.len()
        invariant
            i <= a@.len() == b@.len(),
            forall|j: int| 0 <= j < i ==> a@[j] == b@[j],
        decreases a@.len() - i,
    {
        if a[i] != b[i] {
            return false;
        }
        i = i + 1;
    }
    assert(a@ =~= b@);
    true
}

/// Whether two strings are equal.
pub fn str_eq(a: &str, b: &str) -> (res: bool)
    ensures
        res == (a@ == b@),
{
    let x = chars_of(a);
    let y = chars_of(b);
    chars_eq(x.as_slice(), y.as_slice())
}

/// A line that is not empty.
pub open spec fn nonempty(l: Seq<char>) -> bool {
    l.len() > 0
}

/// The trimmed lines of `s` that are not empty.
pub open spec fn content_lines(s: Seq<char>) -> Seq<Seq<char>> {
    trimmed_lines(s).filter(|l: Seq<char>| nonempty(l))
}

/// Strings holding the given character sequences.
pub fn strings_of(v: &Vec<Vec<char>>) -> (res: Vec<String>)
    ensures
        string_views(res@) == views(v@),
{
    let mut out: Vec<String> = Vec::new();
    let mut i: usize = 0;
    while i < v.len()
        invariant
            i <= v@.len(),
            string_views(out@) =~= views(v@.take(i as int)),
        decreases v@.len() - i,
    {
        let s = string_from(v[i].as_slice());
        out.push(s);
        assert(views(v@.take(i + 1)) =~= views(v@.take(i as int)).push(v@[i as int]@));
        i = i + 1;
    }
    assert(v@.take(v@.len() as int) =~= v@);
    out
}

/// The trimmed lines of `s` that are not empty, in order: what
/// `s.lines().map(|l| l.trim().to_string()).filter(|l| !l.is_empty())` collects.
pub fn content_lines_of(s: &str) -> (res: Vec<String>)
    ensures
        string_views(res@) == content_lines(s@),
{
    let cs = chars_of(s);
    let ls = trimmed_lines_of(cs.as_slice());
    let ghost all = views(ls@);
    let mut kept: Vec<Vec<char>> = Vec::new();
    let mut i: usize = 0;
    while i < ls.len()
        invariant
            i <= ls@.len(),
            all == views(ls@),
            views(kept@) =~= all.take(i as int).filter(|l: Seq<char>| nonempty(l)),
        decreases ls@.len() - i,
    {
        proof {
            assert(all.take(i + 1) =~= all.take(i as int).push(all[i as int]));
            all.take(i as int).lemma_filter_push(all[i as int], |l: Seq<char>| nonempty(l));
        }
        if ls[i].len() > 0 {
            let x = ls[i].clone();
            let ghost prev = kept@;
            kept.push(x);
            assert(views(kept@) =~= views(prev).push(x@));
        }
        i = i + 1;
    }
    assert(all.take(all.len() as int) =~= all);
    strings_of(&kept)
}


/// Trimming a sequence whose first `n` characters are trimmed and whose rest is
/// white space keeps those `n` characters.
pub proof fn lemma_trim_strips(s: Seq<char>, n: int)
    requires
        0 < n <= s.len(),
        !is_ws(s[0]),
        !is_ws(s[n - 1]),
        forall|j: int| n <= j < s.len() ==> is_ws(#[trigger] s[j]),
    ensures
        trim(s) == s.take(n),
{
    lemma_ws_prefix_len(s, 0);
    assert(trim_start(s) =~= s);
    lemma_ws_suffix_len(s, s.len() - n);
}

} // verus!
