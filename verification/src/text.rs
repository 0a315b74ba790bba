//! Text helpers with exact specifications.
use vstd::prelude::*;
use vstd::string::*;

verus! {

/// Views of a sequence of strings.
pub open spec fn views(v: Seq<String>) -> Seq<Seq<char>> {
    v.map_values(|s: String| s@)
}

/// Character-wise equality of two string slices.
pub fn str_eq(a: &str, b: &str) -> (r: bool)
    ensures
        r == (a@ == b@),
{
    let n = a.unicode_len();
    let m = b.unicode_len();
    if n != m {
        return false;
    }
    let mut i: usize = 0;
    while i < n
        invariant
            n == a@.len(),
            m == b@.len(),
            n == m,
            i <= n,
            forall|k: int| 0 <= k < i ==> a@[k] == b@[k],
        decreases n - i,
    {
        if a.get_char(i) != b.get_char(i) {
            return false;
        }
        i = i + 1;
    }
    assert(a@ =~= b@);
    true
}

/// A set of task ids, each held once, in insertion order.
pub struct TaskIdSet {
    items: Vec<String>,
}

impl View for TaskIdSet {
    type V = Set<Seq<char>>;

    open spec fn view(&self) -> Set<Seq<char>> {
        self.elements().to_set()
    }
}

impl TaskIdSet {
    /// The ids in insertion order.
    pub closed spec fn elements(&self) -> Seq<Seq<char>> {
        views(self.items@)
    }

    #[verifier::type_invariant]
    closed spec fn distinct(&self) -> bool {
        self.elements().no_duplicates()
    }

    /// An empty set.
    pub fn new() -> (s: TaskIdSet)
        ensures
            s@ == Set::<Seq<char>>::empty(),
            s.elements() == Seq::<Seq<char>>::empty(),
    {
        let s = TaskIdSet { items: Vec::new() };
        proof {
            assert(s.elements() =~= Seq::<Seq<char>>::empty());
        }
        s
    }

    /// Whether `id` is in the set.
    pub fn contains(&self, id: &str) -> (r: bool)
        ensures
            r == self@.contains(id@),
    {
        let mut i: usize = 0;
        while i < self.items.len()
            invariant
                i <= self.items.len(),
                self.elements() == views(self.items@),
                forall|k: int| 0 <= k < i ==> self.elements()[k] != id@,
            decreases self.items.len() - i,
        {
            if str_eq(self.items[i].as_str(), id) {
                proof {
                    assert(self.elements()[i as int] == id@);
                }
                return true;
            }
            i = i + 1;
        }
        false
    }

    /// Adds `id`; returns whether it was absent before, as `HashSet::insert` does.
    pub fn insert(&mut self, id: String) -> (r: bool)
        ensures
            r == !old(self)@.contains(id@),
            final(self)@ == old(self)@.insert(id@),
            r ==> final(self).elements() == old(self).elements().push(id@),
            !r ==> final(self).elements() == old(self).elements(),
    {
        if self.contains(id.as_str()) {
            return false;
        }
        let ghost old_elems = self.elements();
        proof {
            use_type_invariant(&*self);
        }
        let mut items: Vec<String> = Vec::new();
        std::mem::swap(&mut items, &mut self.items);
        proof {
            assert(views(items@) =~= old_elems);
        }
        items.push(id);
        proof {
            assert(views(items@) =~= old_elems.push(id@));
            old_elems.lemma_push_to_set_commute(id@);
        }
        self.items = items;
        true
    }

    /// Number of ids in the set.
    pub fn len(&self) -> (r: usize)
        ensures
            r == self@.len(),
    {
        proof {
            use_type_invariant(self);
            self.elements().unique_seq_to_set();
        }
        self.items.len()
    }

    /// Whether the set holds no id.
    pub fn is_empty(&self) -> (r: bool)
        ensures
            r == (self@.len() == 0),
    {
        self.len() == 0
    }

    /// The ids in insertion order.
    pub fn to_vec(&self) -> (r: Vec<String>)
        ensures
            views(r@) == self.elements(),
            views(r@).no_duplicates(),
    {
        proof {
            use_type_invariant(self);
        }
        let r = self.items.clone();
        proof {
            assert(views(r@) =~= self.elements());
        }
        r
    }
}

/// Unicode `White_Space`, the class `char::is_whitespace` tests.
pub open spec fn is_ws(c: char) -> bool {
    let u = c as u32;
    ||| 0x09 <= u <= 0x0D
    ||| u == 0x20
    ||| u == 0x85
    ||| u == 0xA0
    ||| u == 0x1680
    ||| 0x2000 <= u <= 0x200A
    ||| u == 0x2028
    ||| u == 0x2029
    ||| u == 0x202F
    ||| u == 0x205F
    ||| u == 0x3000
}

/// Whether `c` is Unicode white space.
pub fn is_whitespace(c: char) -> (r: bool)
    ensures
        r == is_ws(c),
{
    let u = c as u32;
    (0x09 <= u && u <= 0x0D) || u == 0x20 || u == 0x85 || u == 0xA0 || u == 0x1680 || (0x2000 <= u && u <= 0x200A)
        || u == 0x2028 || u == 0x2029 || u == 0x202F || u == 0x205F || u == 0x3000
}

/// The words of `s` after the word `cur` already begun: maximal runs of
/// characters that are not white space, in order.
pub open spec fn words_from(s: Seq<char>, cur: Seq<char>) -> Seq<Seq<char>>
    decreases s.len(),
{
    if s.len() == 0 {
        if cur.len() > 0 { seq![cur] } else { Seq::empty() }
    } else if is_ws(s[0]) {
        (if cur.len() > 0 { seq![cur] } else { Seq::<Seq<char>>::empty() }) + words_from(s.drop_first(), Seq::empty())
    } else {
        words_from(s.drop_first(), cur.push(s[0]))
    }
}

/// The white-space separated words of `s`, as `str::split_whitespace` yields them.
pub open spec fn words(s: Seq<char>) -> Seq<Seq<char>> {
    words_from(s, Seq::empty())
}

/// The white-space separated words of `s`.
pub fn split_whitespace(s: &str) -> (r: Vec<String>)
    ensures
        views(r@) == words(s@),
{
    let n = s.unicode_len();
    let mut out: Vec<String> = Vec::new();
    let mut start: usize = 0;
    let mut in_word = false;
    let mut i: usize = 0;
    proof {
        assert(s@.skip(0) =~= s@);
        assert(s@.subrange(0, 0) =~= Seq::<char>::empty());
        assert(views(out@) =~= Seq::<Seq<char>>::empty());
        assert(views(out@) + words(s@) =~= words(s@));
    }
    while i < n
        invariant
            n == s@.len(),
            i <= n,
            start <= i,
            in_word ==> start < i,
            !in_word ==> start == i,
            views(out@) + words_from(s@.skip(i as int), s@.subrange(start as int, i as int)) == words(s@),
        decreases n - i,
    {
        let c = s.get_char(i);
        let ghost rest = s@.skip(i as int);
        let ghost cur = s@.subrange(start as int, i as int);
        proof {
            assert(rest[0] == c);
            assert(rest.drop_first() =~= s@.skip(i as int + 1));
        }
        if is_whitespace(c) {
            if in_word {
                let w = s.substring_char(start, i).to_owned();
                let ghost before = out@;
                out.push(w);
                proof {
                    assert(views(out@) =~= views(before) + seq![cur]);
                }
            } else {
                proof {
                    assert(cur =~= Seq::<char>::empty());
                    assert(seq![cur].len() == 1);
                }
            }
            proof {
                assert(s@.subrange(i as int + 1, i as int + 1) =~= Seq::<char>::empty());
                assert(views(out@) + words_from(s@.skip(i as int + 1), Seq::empty()) =~= words(s@));
            }
            i = i + 1;
            start = i;
            in_word = false;
        } else {
            proof {
                assert(cur.push(c) =~= s@.subrange(start as int, i as int + 1));
            }
            i = i + 1;
            in_word = true;
        }
    }
    proof {
        assert(s@.skip(n as int) =~= Seq::<char>::empty());
    }
    if in_word {
        let w = s.substring_char(start, n).to_owned();
        let ghost before = out@;
        out.push(w);
        proof {
            assert(views(out@) =~= views(before) + seq![s@.subrange(start as int, n as int)]);
        }
    } else {
        proof {
            assert(views(out@) + Seq::<Seq<char>>::empty() =~= views(out@));
        }
    }
    out
}

/// `s` without its leading white space.
pub open spec fn trim_start(s: Seq<char>) -> Seq<char>
    decreases s.len(),
{
    if s.len() > 0 && is_ws(s[0]) {
        trim_start(s.drop_first())
    } else {
        s
    }
}

/// `s` without its trailing white space.
pub open spec fn trim_end(s: Seq<char>) -> Seq<char>
    decreases s.len(),
{
    if s.len() > 0 && is_ws(s.last()) {
        trim_end(s.drop_last())
    } else {
        s
    }
}

/// `s` without leading and trailing white space, as `str::trim` gives it.
pub open spec fn trimmed(s: Seq<char>) -> Seq<char> {
    trim_end(trim_start(s))
}

proof fn lemma_trim_start_at(s: Seq<char>, a: int)
    requires
        0 <= a <= s.len(),
        forall|k: int| 0 <= k < a ==> is_ws(#[trigger] s[k]),
        a < s.len() ==> !is_ws(s[a]),
    ensures
        trim_start(s) == s.subrange(a, s.len() as int),
    decreases a,
{
    if a > 0 {
        let t = s.drop_first();
        assert forall|k: int| 0 <= k < a - 1 implies is_ws(#[trigger] t[k]) by {
            assert(t[k] == s[k + 1]);
        }
        assert(is_ws(s[0]));
        lemma_trim_start_at(t, a - 1);
        assert(t.subrange(a - 1, t.len() as int) =~= s.subrange(a, s.len() as int));
    } else {
        assert(s.subrange(0, s.len() as int) =~= s);
    }
}

proof fn lemma_trim_end_at(s: Seq<char>, b: int)
    requires
        0 <= b <= s.len(),
        forall|k: int| b <= k < s.len() ==> is_ws(#[trigger] s[k]),
        b > 0 ==> !is_ws(s[b - 1]),
    ensures
        trim_end(s) == s.subrange(0, b),
    decreases s.len() - b,
{
    if b < s.len() {
        let t = s.drop_last();
        assert(is_ws(s[s.len() - 1]));
        assert forall|k: int| b <= k < t.len() implies is_ws(#[trigger] t[k]) by {
            assert(t[k] == s[k]);
        }
        if b > 0 {
            assert(t[b - 1] == s[b - 1]);
        }
        lemma_trim_end_at(t, b);
        assert(t.subrange(0, b) =~= s.subrange(0, b));
    } else {
        assert(s.subrange(0, b) =~= s);
    }
}

/// `s` without leading and trailing white space.
pub fn trim(s: &str) -> (r: String)
    ensures
        r@ == trimmed(s@),
{
    let n = s.unicode_len();
    let mut a: usize = 0;
    while a < n && is_whitespace(s.get_char(a))
        invariant
            n == s@.len(),
            a <= n,
            forall|k: int| 0 <= k < a ==> is_ws(#[trigger] s@[k]),
        decreases n - a,
    {
        a = a + 1;
    }
    let mut b: usize = n;
    while b > a && is_whitespace(s.get_char(b - 1))
        invariant
            n == s@.len(),
            a <= b <= n,
            forall|k: int| b <= k < n ==> is_ws(#[trigger] s@[k]),
        decreases b,
    {
        b = b - 1;
    }
    proof {
        lemma_trim_start_at(s@, a as int);
        let t = s@.subrange(a as int, n as int);
        assert forall|k: int| b - a <= k < t.len() implies is_ws(#[trigger] t[k]) by {
            assert(t[k] == s@[a + k]);
        }
        if b > a {
            assert(t[b - a - 1] == s@[b - 1]);
        }
        lemma_trim_end_at(t, b - a);
        assert(t.subrange(0, b - a) =~= s@.subrange(a as int, b as int));
    }
    s.substring_char(a, b).to_owned()
}

/// The character of the decimal digit `d`.
pub open spec fn digit_char(d: int) -> char {
    if d == 0 { '0' } else if d == 1 { '1' } else if d == 2 { '2' } else if d == 3 { '3' } else if d == 4 { '4' }
    else if d == 5 { '5' } else if d == 6 { '6' } else if d == 7 { '7' } else if d == 8 { '8' } else { '9' }
}

/// Decimal digits of `n`, without leading zeros ("0" for zero).
pub open spec fn digits(n: nat) -> Seq<char>
    decreases n,
{
    if n < 10 {
        seq![digit_char(n as int)]
    } else {
        digits(n / 10).push(digit_char((n % 10) as int))
    }
}

/// The decimal text of `n`, with a leading minus sign when negative, as `Display` writes integers.
pub open spec fn decimal(n: int) -> Seq<char> {
    if n < 0 {
        seq!['-'] + digits((-n) as nat)
    } else {
        digits(n as nat)
    }
}

fn digit_str(d: u64) -> (r: &'static str)
    requires
        d < 10,
    ensures
        r@ == seq![digit_char(d as int)],
{
    proof {
        reveal_strlit("0");
        reveal_strlit("1");
        reveal_strlit("2");
        reveal_strlit("3");
        reveal_strlit("4");
        reveal_strlit("5");
        reveal_strlit("6");
        reveal_strlit("7");
        reveal_strlit("8");
        reveal_strlit("9");
    }
    if d == 0 { "0" } else if d == 1 { "1" } else if d == 2 { "2" } else if d == 3 { "3" } else if d == 4 { "4" }
    else if d == 5 { "5" } else if d == 6 { "6" } else if d == 7 { "7" } else if d == 8 { "8" } else { "9" }
}

fn digits_string(m: u64) -> (r: String)
    ensures
        r@ == digits(m as nat),
    decreases m,
{
    if m < 10 {
        digit_str(m).to_owned()
    } else {
        let mut s = digits_string(m / 10);
        s.append(digit_str(m % 10));
        s
    }
}

/// Decimal text of `n`.
pub fn u64_to_string(n: u64) -> (r: String)
    ensures
        r@ == digits(n as nat),
{
    digits_string(n)
}

/// Decimal text of `n`.
pub fn i64_to_string(n: i64) -> (r: String)
    ensures
        r@ == decimal(n as int),
{
    if n < 0 {
        let m: u64 = (0i128 - (n as i128)) as u64;
        proof {
            reveal_strlit("-");
        }
        let mut s = "-".to_owned();
        s.append(digits_string(m).as_str());
        s
    } else {
        digits_string(n as u64)
    }
}

/// `a` sorts before `b`: the order of `String`'s comparison, character by
/// character by code point, a proper prefix first.
pub open spec fn lex_lt(a: Seq<char>, b: Seq<char>) -> bool
    decreases a.len(),
{
    if a.len() == 0 {
        b.len() > 0
    } else if b.len() == 0 {
        false
    } else if a[0] != b[0] {
        (a[0] as int) < (b[0] as int)
    } else {
        lex_lt(a.drop_first(), b.drop_first())
    }
}

/// `lex_lt` is irreflexive.
pub proof fn lemma_lex_irreflexive(a: Seq<char>)
    ensures
        !lex_lt(a, a),
    decreases a.len(),
{
    if a.len() > 0 {
        lemma_lex_irreflexive(a.drop_first());
    }
}

/// `lex_lt` is transitive.
pub proof fn lemma_lex_transitive(a: Seq<char>, b: Seq<char>, c: Seq<char>)
    requires
        lex_lt(a, b),
        lex_lt(b, c),
    ensures
        lex_lt(a, c),
    decreases a.len(),
{
    if a.len() > 0 && b.len() > 0 && c.len() > 0 {
        if a[0] == b[0] && b[0] == c[0] {
            lemma_lex_transitive(a.drop_first(), b.drop_first(), c.drop_first());
        }
    }
}

/// Two different strings are ordered one way or the other.
pub proof fn lemma_lex_total(a: Seq<char>, b: Seq<char>)
    requires
        a != b,
    ensures
        lex_lt(a, b) || lex_lt(b, a),
    decreases a.len(),
{
    if a.len() > 0 && b.len() > 0 && a[0] == b[0] {
        if a.drop_first() == b.drop_first() {
            assert(a =~= seq![a[0]] + a.drop_first());
            assert(b =~= seq![b[0]] + b.drop_first());
        }
        lemma_lex_total(a.drop_first(), b.drop_first());
    } else if a.len() > 0 && b.len() > 0 {
        assert((a[0] as int) != (b[0] as int));
    } else if a.len() == 0 && b.len() == 0 {
        assert(a =~= b);
    }
}

/// `lex_lt` is asymmetric.
pub proof fn lemma_lex_asymmetric(a: Seq<char>, b: Seq<char>)
    requires
        lex_lt(a, b),
    ensures
        !lex_lt(b, a),
{
    if lex_lt(b, a) {
        lemma_lex_transitive(a, b, a);
        lemma_lex_irreflexive(a);
    }
}

/// Whether `a` sorts before `b`.
pub fn str_lt(a: &str, b: &str) -> (r: bool)
    ensures
        r == lex_lt(a@, b@),
{
    let n = a.unicode_len();
    let m = b.unicode_len();
    let mut i: usize = 0;
    proof {
        assert(a@.skip(0) =~= a@);
        assert(b@.skip(0) =~= b@);
    }
    while i < n && i < m
        invariant
            n == a@.len(),
            m == b@.len(),
            i <= n,
            i <= m,
            lex_lt(a@, b@) == lex_lt(a@.skip(i as int), b@.skip(i as int)),
        decreases n - i,
    {
        let x = a.get_char(i);
        let y = b.get_char(i);
        let ghost sa = a@.skip(i as int);
        let ghost sb = b@.skip(i as int);
        proof {
            assert(sa[0] == x && sb[0] == y);
        }
        if x != y {
            return (x as u32) < (y as u32);
        }
        proof {
            assert(sa.drop_first() =~= a@.skip(i as int + 1));
            assert(sb.drop_first() =~= b@.skip(i as int + 1));
        }
        i = i + 1;
    }
    proof {
        assert(a@.skip(i as int).len() == n - i);
        assert(b@.skip(i as int).len() == m - i);
    }
    i == n && i < m
}

/// `s` with each occurrence of `pat` replaced by `rep`, the occurrences
/// found from the left and not overlapping, as `str::replace` does.
pub open spec fn replace_all(s: Seq<char>, pat: Seq<char>, rep: Seq<char>) -> Seq<char>
    decreases s.len(),
{
    if pat.len() == 0 || s.len() < pat.len() {
        s
    } else if s.take(pat.len() as int) == pat {
        rep + replace_all(s.skip(pat.len() as int), pat, rep)
    } else {
        seq![s[0]] + replace_all(s.drop_first(), pat, rep)
    }
}

/// When `s` does not begin with `pat`, its first character is kept.
proof fn lemma_replace_keeps_first(s: Seq<char>, pat: Seq<char>, rep: Seq<char>)
    requires
        pat.len() > 0,
        s.len() > 0,
        !(s.len() >= pat.len() && s.take(pat.len() as int) == pat),
    ensures
        replace_all(s, pat, rep) == seq![s[0]] + replace_all(s.drop_first(), pat, rep),
{
    if s.len() < pat.len() {
        assert(replace_all(s.drop_first(), pat, rep) == s.drop_first());
        assert(seq![s[0]] + s.drop_first() =~= s);
    }
}

/// `s` with each occurrence of the non-empty `pat` replaced by `rep`.
pub fn replace_text(s: &str, pat: &str, rep: &str) -> (r: String)
    requires
        pat@.len() > 0,
    ensures
        r@ == replace_all(s@, pat@, rep@),
{
    let n = s.unicode_len();
    let m = pat.unicode_len();
    let mut out = String::new();
    let mut i: usize = 0;
    proof {
        assert(s@.skip(0) =~= s@);
        assert(out@ + replace_all(s@, pat@, rep@) =~= replace_all(s@, pat@, rep@));
    }
    while i < n
        invariant
            n == s@.len(),
            m == pat@.len(),
            m > 0,
            i <= n,
            out@ + replace_all(s@.skip(i as int), pat@, rep@) == replace_all(s@, pat@, rep@),
        decreases n - i,
    {
        let ghost rest = s@.skip(i as int);
        let ghost before = out@;
        let matched = if n - i >= m {
            let piece = s.substring_char(i, i + m);
            proof {
                assert(rest.take(m as int) =~= piece@);
            }
            str_eq(piece, pat)
        } else {
            false
        };
        if matched {
            out.append(rep);
            proof {
                assert(rest.skip(m as int) =~= s@.skip(i as int + m));
                assert(out@ + replace_all(s@.skip(i as int + m), pat@, rep@) =~= before + replace_all(rest, pat@, rep@));
            }
            i = i + m;
        } else {
            let one = s.substring_char(i, i + 1);
            out.append(one);
            proof {
                lemma_replace_keeps_first(rest, pat@, rep@);
                assert(one@ =~= seq![rest[0]]);
                assert(rest.drop_first() =~= s@.skip(i as int + 1));
                assert(out@ + replace_all(s@.skip(i as int + 1), pat@, rep@) =~= before + replace_all(rest, pat@, rep@));
            }
            i = i + 1;
        }
    }
    proof {
        assert(s@.skip(n as int) =~= Seq::<char>::empty());
        assert(out@ + Seq::<char>::empty() =~= out@);
    }
    out
}

/// The text that `Debug` writes for a string: quoted, with escapes; a
/// function of the string alone.
pub uninterp spec fn debug_text(s: Seq<char>) -> Seq<char>;

/// Calls `<str as Debug>::fmt` through `format!`.
#[verifier::external_body]
pub(crate) fn debug_string(s: &str) -> (r: String)
    ensures
        r@ == debug_text(s@),
{
    format!("{:?}", s)
}

/// A line without the carriage return that ended it.
pub open spec fn strip_cr(l: Seq<char>) -> Seq<char> {
    if l.len() > 0 && l.last() == '\r' { l.drop_last() } else { l }
}

/// The lines of `s` after the line `cur` already begun.
pub open spec fn lines_from(s: Seq<char>, cur: Seq<char>) -> Seq<Seq<char>>
    decreases s.len(),
{
    if s.len() == 0 {
        if cur.len() > 0 { seq![cur] } else { Seq::empty() }
    } else if s[0] == '\n' {
        seq![strip_cr(cur)] + lines_from(s.drop_first(), Seq::empty())
    } else {
        lines_from(s.drop_first(), cur.push(s[0]))
    }
}

/// The lines of `s` as `str::lines` yields them: split at `\n`, a `\r`
/// just before it dropped, no empty line after a final `\n`.
pub open spec fn lines(s: Seq<char>) -> Seq<Seq<char>> {
    lines_from(s, Seq::empty())
}

/// The lines of `s`.
pub fn split_lines(s: &str) -> (r: Vec<String>)
    ensures
        views(r@) == lines(s@),
{
    let n = s.unicode_len();
    let mut out: Vec<String> = Vec::new();
    let mut start: usize = 0;
    let mut i: usize = 0;
    proof {
        assert(s@.skip(0) =~= s@);
        assert(s@.subrange(0, 0) =~= Seq::<char>::empty());
        assert(views(out@) + lines(s@) =~= lines(s@));
    }
    while i < n
        invariant
            n == s@.len(),
            start <= i <= n,
            views(out@) + lines_from(s@.skip(i as int), s@.subrange(start as int, i as int)) == lines(s@),
        decreases n - i,
    {
        let c = s.get_char(i);
        let ghost rest = s@.skip(i as int);
        let ghost cur = s@.subrange(start as int, i as int);
        proof {
            assert(rest[0] == c);
            assert(rest.drop_first() =~= s@.skip(i as int + 1));
        }
        if c == '\n' {
            let end = if i > start && s.get_char(i - 1) == '\r' { i - 1 } else { i };
            let line = s.substring_char(start, end).to_owned();
            let ghost before = out@;
            out.push(line);
            proof {
                if i > start && s@[i - 1] == '\r' {
                    assert(cur.last() == s@[i - 1]);
                    assert(line@ =~= strip_cr(cur));
                } else {
                    assert(line@ =~= strip_cr(cur));
                }
                assert(views(out@) =~= views(before) + seq![strip_cr(cur)]);
                assert(s@.subrange(i as int + 1, i as int + 1) =~= Seq::<char>::empty());
                assert(views(out@) + lines_from(s@.skip(i as int + 1), Seq::empty()) =~= lines(s@));
            }
            i = i + 1;
            start = i;
        } else {
            proof {
                assert(cur.push(c) =~= s@.subrange(start as int, i as int + 1));
            }
            i = i + 1;
        }
    }
    proof {
        assert(s@.skip(n as int) =~= Seq::<char>::empty());
    }
    if start < n {
        let line = s.substring_char(start, n).to_owned();
        let ghost before = out@;
        out.push(line);
        proof {
            assert(views(out@) =~= views(before) + seq![s@.subrange(start as int, n as int)]);
        }
    } else {
        proof {
            assert(s@.subrange(start as int, n as int) =~= Seq::<char>::empty());
            assert(views(out@) + Seq::<Seq<char>>::empty() =~= views(out@));
        }
    }
    out
}

/// `s` begins with `p`.
pub open spec fn has_prefix(s: Seq<char>, p: Seq<char>) -> bool {
    s.len() >= p.len() && s.take(p.len() as int) == p
}

/// Whether `s` begins with `p`.
pub fn starts_with(s: &str, p: &str) -> (r: bool)
    ensures
        r == has_prefix(s@, p@),
{
    let n = s.unicode_len();
    let m = p.unicode_len();
    if n < m {
        return false;
    }
    let head = s.substring_char(0, m);
    proof {
        assert(head@ =~= s@.take(m as int));
    }
    str_eq(head, p)
}

/// The value of a run of decimal digits.
pub open spec fn digits_value(s: Seq<char>) -> int
    decreases s.len(),
{
    if s.len() == 0 {
        0
    } else {
        digits_value(s.drop_last()) * 10 + (s.last() as int - '0' as int)
    }
}

/// Every character of `s` is an ASCII digit.
pub open spec fn all_digits(s: Seq<char>) -> bool {
    forall|i: int| 0 <= i < s.len() ==> '0' <= #[trigger] s[i] <= '9'
}

/// The integer that `s` spells, as `i32::from_str` reads it: an optional
/// `+` or `-`, then at least one decimal digit; `None` when the text is not
/// of that form or the value does not fit in an `i32`.
pub open spec fn parsed_i32(s: Seq<char>) -> Option<int> {
    let neg = s.len() > 0 && s[0] == '-';
    let body = if s.len() > 0 && (s[0] == '-' || s[0] == '+') { s.drop_first() } else { s };
    let v = if neg { -digits_value(body) } else { digits_value(body) };
    if body.len() > 0 && all_digits(body) && i32::MIN <= v <= i32::MAX { Some(v) } else { None }
}

/// A run of digits is worth at least any of its prefixes.
proof fn lemma_digits_value_prefix(s: Seq<char>, k: int)
    requires
        all_digits(s),
        0 <= k <= s.len(),
    ensures
        digits_value(s) >= digits_value(s.take(k)),
        digits_value(s.take(k)) >= 0,
    decreases s.len(),
{
    if k == s.len() {
        assert(s.take(k) =~= s);
        lemma_digits_value_nonneg(s);
    } else {
        assert(s.drop_last().take(k) =~= s.take(k));
        lemma_digits_value_prefix(s.drop_last(), k);
        lemma_digits_value_nonneg(s.drop_last());
    }
}

/// A run of digits has a value of at least zero.
proof fn lemma_digits_value_nonneg(s: Seq<char>)
    requires
        all_digits(s),
    ensures
        digits_value(s) >= 0,
    decreases s.len(),
{
    if s.len() > 0 {
        lemma_digits_value_nonneg(s.drop_last());
    }
}

/// The `i32` that `s` spells, if it spells one.
pub fn parse_i32(s: &str) -> (r: Option<i32>)
    ensures
        match parsed_i32(s@) {
            Some(v) => r == Some(v as i32),
            None => r is None,
        },
{
    let n = s.unicode_len();
    if n == 0 {
        return None;
    }
    let first = s.get_char(0);
    let neg = first == '-';
    let skip: usize = if first == '-' || first == '+' { 1 } else { 0 };
    let body = s.substring_char(skip, n);
    let ghost b = body@;
    proof {
        if skip == 1 {
            assert(b =~= s@.drop_first());
        } else {
            assert(b =~= s@);
        }
    }
    let m = body.unicode_len();
    if m == 0 {
        return None;
    }
    let limit: u64 = if neg { 2147483648 } else { 2147483647 };
    let mut acc: u64 = 0;
    let mut i: usize = 0;
    proof {
        assert(b.take(0) =~= Seq::<char>::empty());
    }
    while i < m
        invariant
            m == b.len(),
            b == body@,
            b == (if s@.len() > 0 && (s@[0] == '-' || s@[0] == '+') { s@.drop_first() } else { s@ }),
            neg == (s@.len() > 0 && s@[0] == '-'),
            limit == (if neg { 2147483648u64 } else { 2147483647u64 }),
            i <= m,
            acc <= limit,
            limit <= 2147483648,
            all_digits(b.take(i as int)),
            acc == digits_value(b.take(i as int)),
        decreases m - i,
    {
        let c = body.get_char(i);
        if !('0' <= c && c <= '9') {
            proof {
                assert(b[i as int] == c);
                assert(!all_digits(b));
            }
            return None;
        }
        let d = (c as u32 - '0' as u32) as u64;
        proof {
            assert(b.take(i as int + 1).drop_last() =~= b.take(i as int));
            assert(b.take(i as int + 1).last() == c);
            assert(all_digits(b.take(i as int + 1)));
        }
        let next = acc * 10 + d;
        if next > limit {
            proof {
                let t = b.take(i as int + 1);
                assert(digits_value(t) == next);
                if all_digits(b) {
                    lemma_digits_value_prefix(b, i as int + 1);
                }
            }
            return None;
        }
        acc = next;
        i = i + 1;
    }
    proof {
        assert(b.take(m as int) =~= b);
    }
    if neg {
        Some((0i64 - acc as i64) as i32)
    } else {
        Some(acc as i32)
    }
}

/// The character of a decimal digit is worth that digit.
proof fn lemma_digit_char_value(d: int)
    requires
        0 <= d < 10,
    ensures
        '0' <= digit_char(d) <= '9',
        digit_char(d) as int - '0' as int == d,
{
    assert('0' as int == 48 && '1' as int == 49 && '2' as int == 50 && '3' as int == 51 && '4' as int == 52);
    assert('5' as int == 53 && '6' as int == 54 && '7' as int == 55 && '8' as int == 56 && '9' as int == 57);
}

/// The decimal digits of `n` are digits, at least one, and spell `n`.
proof fn lemma_digits_spell(n: nat)
    ensures
        digits(n).len() > 0,
        all_digits(digits(n)),
        digits_value(digits(n)) == n,
    decreases n,
{
    if n < 10 {
        let s = digits(n);
        lemma_digit_char_value(n as int);
        assert(s.drop_last() =~= Seq::<char>::empty());
        assert(digits_value(Seq::<char>::empty()) == 0);
        assert(s.last() == digit_char(n as int));
        assert(digits_value(s) == digits_value(s.drop_last()) * 10 + (s.last() as int - '0' as int));
    } else {
        lemma_digit_char_value((n % 10) as int);
        lemma_digits_spell(n / 10);
        let p = digits(n / 10);
        let s = digits(n);
        assert(s.drop_last() =~= p);
        assert forall|i: int| 0 <= i < s.len() implies '0' <= #[trigger] s[i] <= '9' by {
            if i < p.len() {
                assert(s[i] == p[i]);
            }
        }
        assert((n / 10) * 10 + n % 10 == n);
        assert(s.last() == digit_char((n % 10) as int));
        assert(digits_value(s) == digits_value(s.drop_last()) * 10 + (s.last() as int - '0' as int));
    }
}

/// Reading back the decimal text of an `i32` gives the number: the text
/// has no surrounding white space and `i32::from_str` accepts it.
pub proof fn lemma_decimal_round_trip(n: i32)
    ensures
        trimmed(decimal(n as int)) == decimal(n as int),
        parsed_i32(decimal(n as int)) == Some(n as int),
{
    let s = decimal(n as int);
    if n < 0 {
        let m = (-(n as int)) as nat;
        lemma_digits_spell(m);
        assert(s.drop_first() =~= digits(m));
        assert(s[s.len() - 1] == digits(m)[digits(m).len() - 1]);
    } else {
        lemma_digits_spell(n as nat);
        assert(s[0] == digits(n as nat)[0]);
    }
    assert(!is_ws(s[0]));
    assert(!is_ws(s[s.len() - 1]));
    lemma_trim_start_at(s, 0);
    assert(s.subrange(0, s.len() as int) =~= s);
    lemma_trim_end_at(s, s.len() as int);
}

/// White space alone holds no word.
proof fn lemma_words_of_space(t: Seq<char>)
    requires
        forall|i: int| 0 <= i < t.len() ==> is_ws(#[trigger] t[i]),
    ensures
        words_from(t, Seq::empty()) == Seq::<Seq<char>>::empty(),
    decreases t.len(),
{
    if t.len() > 0 {
        let r = t.drop_first();
        assert forall|i: int| 0 <= i < r.len() implies is_ws(#[trigger] r[i]) by {
            assert(r[i] == t[i + 1]);
        }
        assert(is_ws(t[0]));
        lemma_words_of_space(r);
        assert(Seq::<Seq<char>>::empty() + Seq::<Seq<char>>::empty() =~= Seq::<Seq<char>>::empty());
    }
}

/// A run of characters without white space, then only white space,
/// completes the word begun.
proof fn lemma_words_of_word(t: Seq<char>, tail: Seq<char>, cur: Seq<char>)
    requires
        forall|i: int| 0 <= i < t.len() ==> !is_ws(#[trigger] t[i]),
        forall|i: int| 0 <= i < tail.len() ==> is_ws(#[trigger] tail[i]),
        cur.len() + t.len() > 0,
    ensures
        words_from(t + tail, cur) == seq![cur + t],
    decreases t.len(), tail.len(),
{
    let u = t + tail;
    if t.len() == 0 {
        assert(u =~= tail);
        assert(cur + t =~= cur);
        if tail.len() == 0 {
        } else {
            let r = tail.drop_first();
            assert forall|i: int| 0 <= i < r.len() implies is_ws(#[trigger] r[i]) by {
                assert(r[i] == tail[i + 1]);
            }
            assert(is_ws(tail[0]));
            lemma_words_of_space(r);
            assert(u.drop_first() =~= r);
            assert(seq![cur] + Seq::<Seq<char>>::empty() =~= seq![cur]);
        }
    } else {
        let r = t.drop_first();
        assert forall|i: int| 0 <= i < r.len() implies !is_ws(#[trigger] r[i]) by {
            assert(r[i] == t[i + 1]);
        }
        assert(u[0] == t[0]);
        assert(!is_ws(t[0]));
        assert(u.drop_first() =~= r + tail);
        lemma_words_of_word(r, tail, cur.push(t[0]));
        assert(cur.push(t[0]) + r =~= cur + t);
    }
}

/// After text that ends in white space, the words of what follows come on
/// their own.
proof fn lemma_words_split(a: Seq<char>, t: Seq<char>, cur: Seq<char>)
    requires
        a.len() > 0,
        is_ws(a.last()),
    ensures
        words_from(a + t, cur) == words_from(a, cur) + words_from(t, Seq::empty()),
    decreases a.len(),
{
    let at = a + t;
    assert(at[0] == a[0]);
    let pre = if cur.len() > 0 { seq![cur] } else { Seq::<Seq<char>>::empty() };
    if a.len() == 1 {
        assert(is_ws(a[0]));
        assert(at.drop_first() =~= t);
        assert(a.drop_first() =~= Seq::<char>::empty());
        assert(words_from(a, cur) == pre + words_from(Seq::<char>::empty(), Seq::empty()));
        assert(words_from(Seq::<char>::empty(), Seq::<char>::empty()) =~= Seq::<Seq<char>>::empty());
        assert(pre + Seq::<Seq<char>>::empty() =~= pre);
    } else {
        let a2 = a.drop_first();
        assert(at.drop_first() =~= a2 + t);
        assert(a2.last() == a.last());
        if is_ws(a[0]) {
            lemma_words_split(a2, t, Seq::empty());
            assert(pre + (words_from(a2, Seq::empty()) + words_from(t, Seq::empty())) =~= (pre + words_from(a2, Seq::empty())) + words_from(t, Seq::empty()));
        } else {
            lemma_words_split(a2, t, cur.push(a[0]));
        }
    }
}

/// The last word of `a`, then a word `w`, then only white space, is `w`,
/// when `a` ends in white space.
pub proof fn lemma_last_word(a: Seq<char>, w: Seq<char>, tail: Seq<char>)
    requires
        a.len() > 0,
        is_ws(a.last()),
        w.len() > 0,
        forall|i: int| 0 <= i < w.len() ==> !is_ws(#[trigger] w[i]),
        forall|i: int| 0 <= i < tail.len() ==> is_ws(#[trigger] tail[i]),
    ensures
        words(a + w + tail).len() > 0,
        words(a + w + tail).last() == w,
{
    assert(a + w + tail =~= a + (w + tail));
    lemma_words_split(a, w + tail, Seq::empty());
    lemma_words_of_word(w, tail, Seq::empty());
    assert(Seq::<char>::empty() + w =~= w);
}

/// Trailing white space goes when text is trimmed.
pub proof fn lemma_trimmed_drops_tail(s: Seq<char>, tail: Seq<char>)
    requires
        s.len() > 0,
        !is_ws(s[0]),
        !is_ws(s.last()),
        forall|i: int| 0 <= i < tail.len() ==> is_ws(#[trigger] tail[i]),
    ensures
        trimmed(s + tail) == s,
{
    let u = s + tail;
    assert(u[0] == s[0]);
    lemma_trim_start_at(u, 0);
    assert(u.subrange(0, u.len() as int) =~= u);
    assert forall|k: int| s.len() <= k < u.len() implies is_ws(#[trigger] u[k]) by {
        assert(u[k] == tail[k - s.len()]);
    }
    assert(u[s.len() - 1] == s.last());
    lemma_trim_end_at(u, s.len() as int);
    assert(u.subrange(0, s.len() as int) =~= s);
}

/// Text without a line break, ended by one, is a single line.
proof fn lemma_lines_one(t: Seq<char>, cur: Seq<char>)
    requires
        forall|i: int| 0 <= i < t.len() ==> #[trigger] t[i] != '\n',
    ensures
        lines_from(t.push('\n'), cur) == seq![strip_cr(cur + t)],
    decreases t.len(),
{
    let u = t.push('\n');
    if t.len() == 0 {
        assert(u[0] == '\n');
        assert(u.drop_first() =~= Seq::<char>::empty());
        assert(cur + t =~= cur);
        assert(lines_from(Seq::<char>::empty(), Seq::<char>::empty()) =~= Seq::<Seq<char>>::empty());
        assert(seq![strip_cr(cur)] + Seq::<Seq<char>>::empty() =~= seq![strip_cr(cur)]);
    } else {
        let r = t.drop_first();
        assert forall|i: int| 0 <= i < r.len() implies #[trigger] r[i] != '\n' by {
            assert(r[i] == t[i + 1]);
        }
        assert(u[0] == t[0]);
        assert(u.drop_first() =~= r.push('\n'));
        lemma_lines_one(r, cur.push(t[0]));
        assert(cur.push(t[0]) + r =~= cur + t);
    }
}

/// A line of text without line breaks, ended by `\n`, is all that
/// `lines` finds.
pub proof fn lemma_single_line(t: Seq<char>)
    requires
        forall|i: int| 0 <= i < t.len() ==> #[trigger] t[i] != '\n',
        t.len() == 0 || t.last() != '\r',
    ensures
        lines(t.push('\n')) == seq![t],
{
    lemma_lines_one(t, Seq::empty());
    assert(Seq::<char>::empty() + t =~= t);
}

} // verus!
