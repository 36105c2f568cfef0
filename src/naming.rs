//! Sequence-numbered object names: `<prefix>_<n>`.
use vstd::prelude::*;
use crate::text::{chars_of, push_char, string_views};

verus! {

/// The text after the last `_` of `s`, or all of `s` when it has none.
pub open spec fn last_segment(s: Seq<char>) -> Seq<char>
    decreases s.len(),
{
    if s.len() == 0 {
        s
    } else if s.last() == '_' {
        Seq::empty()
    } else {
        last_segment(s.drop_last()).push(s.last())
    }
}

pub open spec fn is_digit(c: char) -> bool {
    '0' <= c <= '9'
}

pub open spec fn all_digits(d: Seq<char>) -> bool {
    forall|i: int| 0 <= i < d.len() ==> is_digit(#[trigger] d[i])
}

/// The number that a string of decimal digits denotes.
pub open spec fn digits_value(d: Seq<char>) -> int
    decreases d.len(),
{
    if d.len() == 0 {
        0
    } else {
        digits_value(d.drop_last()) * 10 + (d.last() as u32 - '0' as u32)
    }
}

/// The digits of an unsigned number's text: what follows a leading `+`.
pub open spec fn unsigned_digits(t: Seq<char>) -> Seq<char> {
    if t.len() > 0 && t[0] == '+' {
        t.drop_first()
    } else {
        t
    }
}

/// `t` is the text of a `u32`: an optional `+`, then one or more decimal
/// digits whose value fits in 32 bits.
pub open spec fn parses_u32(t: Seq<char>) -> bool {
    let d = unsigned_digits(t);
    d.len() > 0 && all_digits(d) && digits_value(d) <= u32::MAX
}

/// The sequence number of a name: the text after its last `_` read as a
/// `u32`, or 0 when the name holds no `_` or that text is no such number.
pub open spec fn seq_num(name: Seq<char>) -> u32 {
    let t = last_segment(name);
    if name.contains('_') && parses_u32(t) {
        digits_value(unsigned_digits(t)) as u32
    } else {
        0
    }
}

pub open spec fn digit_char(d: nat) -> char {
    if d == 0 {
        '0'
    } else if d == 1 {
        '1'
    } else if d == 2 {
        '2'
    } else if d == 3 {
        '3'
    } else if d == 4 {
        '4'
    } else if d == 5 {
        '5'
    } else if d == 6 {
        '6'
    } else if d == 7 {
        '7'
    } else if d == 8 {
        '8'
    } else {
        '9'
    }
}

/// The decimal text of `n`, without leading zeros.
pub open spec fn decimal(n: nat) -> Seq<char>
    decreases n,
{
    if n < 10 {
        seq![digit_char(n)]
    } else {
        decimal(n / 10).push(digit_char(n % 10))
    }
}

/// `s` ends in `k`, where `k` is the start of `s` or follows a `_`, and no `_`
/// comes after `k`: then that tail is the last segment.
proof fn lemma_last_segment_from(s: Seq<char>, k: int)
    requires
        0 <= k <= s.len(),
        k == 0 || s[k - 1] == '_',
        forall|j: int| k <= j < s.len() ==> s[j] != '_',
    ensures
        last_segment(s) == s.subrange(k, s.len() as int),
    decreases s.len(),
{
    if s.len() > k {
        let p = s.drop_last();
        assert forall|j: int| k <= j < p.len() implies p[j] != '_' by {
            assert(p[j] == s[j]);
        }
        if k > 0 {
            assert(p[k - 1] == s[k - 1]);
        }
        lemma_last_segment_from(p, k);
        assert(s[s.len() - 1] != '_');
        assert(s.subrange(k, s.len() as int) =~= p.subrange(k, p.len() as int).push(s.last()));
    } else if k > 0 {
        assert(s.last() == '_');
        assert(s.subrange(k, s.len() as int) =~= Seq::<char>::empty());
    } else {
        assert(s.subrange(k, s.len() as int) =~= s);
    }
}

proof fn lemma_digit_char(d: nat)
    requires
        d < 10,
    ensures
        is_digit(digit_char(d)),
        digit_char(d) as u32 - '0' as u32 == d,
{
}

/// Decimal digits are digits, never `_` or `+`, and denote the number.
proof fn lemma_decimal(n: nat)
    ensures
        decimal(n).len() > 0,
        all_digits(decimal(n)),
        digits_value(decimal(n)) == n,
        forall|i: int| 0 <= i < decimal(n).len() ==> #[trigger] decimal(n)[i] != '_',
        decimal(n)[0] != '+',
    decreases n,
{
    lemma_digit_char(n % 10);
    if n < 10 {
        assert(decimal(n).drop_last() =~= Seq::<char>::empty());
        assert(decimal(n).last() == digit_char(n));
        assert(digits_value(Seq::<char>::empty()) == 0);
        assert(digits_value(decimal(n)) == digits_value(decimal(n).drop_last()) * 10 + (
        digit_char(n) as u32 - '0' as u32));
    } else {
        lemma_decimal(n / 10);
        let p = decimal(n / 10);
        assert(decimal(n).drop_last() =~= p);
        assert(decimal(n).last() == digit_char(n % 10));
        assert(digits_value(decimal(n)) == digits_value(p) * 10 + (n % 10));
        assert((n / 10) * 10 + n % 10 == n);
        assert forall|i: int| 0 <= i < decimal(n).len() implies is_digit(#[trigger] decimal(n)[i])
            && decimal(n)[i] != '_' by {
            if i < p.len() {
                assert(decimal(n)[i] == p[i]);
            }
        }
        assert(decimal(n)[0] == p[0]);
    }
}

/// The last segment of `a_d`, with `d` free of `_`, is `d`.
proof fn lemma_last_segment_after_separator(a: Seq<char>, d: Seq<char>)
    requires
        forall|i: int| 0 <= i < d.len() ==> #[trigger] d[i] != '_',
    ensures
        last_segment(a.push('_') + d) == d,
    decreases d.len(),
{
    let x = a.push('_') + d;
    if d.len() == 0 {
        assert(x =~= a.push('_'));
    } else {
        let p = d.drop_last();
        assert forall|i: int| 0 <= i < p.len() implies #[trigger] p[i] != '_' by {
            assert(p[i] == d[i]);
        }
        lemma_last_segment_after_separator(a, p);
        assert(x.drop_last() =~= a.push('_') + p);
        assert(x.last() == d[d.len() - 1]);
        assert(p.push(d.last()) =~= d);
    }
}

/// The name `<base>_<n>` carries sequence number `n`.
pub proof fn lemma_seq_num_of_numbered(base: Seq<char>, n: nat)
    requires
        n <= u32::MAX,
    ensures
        seq_num(base.push('_') + decimal(n)) == n,
{
    lemma_decimal(n);
    lemma_last_segment_after_separator(base, decimal(n));
    assert((base.push('_') + decimal(n))[base.len() as int] == '_');
}

/// Reads `t[from..]` as a `u32`, the way `str::parse::<u32>` does.
fn parse_u32_from(t: &Vec<char>, from: usize) -> (r: Option<u32>)
    requires
        from <= t@.len(),
    ensures
        r == (if parses_u32(t@.subrange(from as int, t@.len() as int)) {
            Some(digits_value(unsigned_digits(t@.subrange(from as int, t@.len() as int))) as u32)
        } else {
            None::<u32>
        }),
{
    let ghost seg = t@.subrange(from as int, t@.len() as int);
    let mut start: usize = from;
    if from < t.len() && t[from] == '+' {
        start = from + 1;
    }
    let ghost d = t@.subrange(start as int, t@.len() as int);
    assert(d =~= unsigned_digits(seg));
    if start == t.len() {
        return None;
    }
    let mut value: u64 = 0;
    let mut fits = true;
    let mut i: usize = start;
    while i < t.len()
        invariant
            start <= i <= t@.len(),
            d == t@.subrange(start as int, t@.len() as int),
            seg == t@.subrange(from as int, t@.len() as int),
            d == unsigned_digits(seg),
            all_digits(t@.subrange(start as int, i as int)),
            digits_value(t@.subrange(start as int, i as int)) >= 0,
            fits ==> value == digits_value(t@.subrange(start as int, i as int)) && value <= u32::MAX,
            !fits ==> digits_value(t@.subrange(start as int, i as int)) > u32::MAX,
        decreases t@.len() - i,
    {
        let c = t[i];
        if !('0' <= c && c <= '9') {
            assert(d[i - start] == c);
            assert(!is_digit(d[i - start]));
            return None;
        }
        let ghost before = t@.subrange(start as int, i as int);
        assert(t@.subrange(start as int, i + 1).drop_last() =~= before);
        assert(t@.subrange(start as int, i + 1).last() == c);
        let digit = (c as u32 - '0' as u32) as u64;
        if fits {
            value = value * 10 + digit;
            if value > u32::MAX as u64 {
                fits = false;
            }
        }
        i = i + 1;
    }
    assert(t@.subrange(start as int, i as int) =~= d);
    if fits {
        Some(value as u32)
    } else {
        None
    }
}

/// Appends the decimal text of `n`.
pub(crate) fn push_decimal(s: &mut String, n: u64)
    ensures
        final(s)@ == old(s)@ + decimal(n as nat),
    decreases n,
{
    if n >= 10 {
        push_decimal(s, n / 10);
    }
    let d = n % 10;
    let c = if d == 0 {
        '0'
    } else if d == 1 {
        '1'
    } else if d == 2 {
        '2'
    } else if d == 3 {
        '3'
    } else if d == 4 {
        '4'
    } else if d == 5 {
        '5'
    } else if d == 6 {
        '6'
    } else if d == 7 {
        '7'
    } else if d == 8 {
        '8'
    } else {
        '9'
    };
    push_char(s, c);
    proof {
        if n < 10 {
            assert(decimal(n as nat) =~= seq![c]);
        }
    }
    assert(final(s)@ =~= old(s)@ + decimal(n as nat));
}

/// The sequence number of `name`.
pub fn seq_num_of(name: &str) -> (r: u32)
    ensures
        r == seq_num(name@),
{
    let cs = chars_of(name);
    let mut k: usize = cs.len();
    while k > 0 && cs[k - 1] != '_'
        invariant
            k <= cs@.len(),
            forall|j: int| k <= j < cs@.len() ==> cs@[j] != '_',
        decreases k,
    {
        k = k - 1;
    }
    proof {
        lemma_last_segment_from(cs@, k as int);
    }
    if k == 0 {
        assert(!cs@.contains('_'));
        return 0;
    }
    assert(cs@[k - 1] == '_');
    match parse_u32_from(&cs, k) {
        Some(v) => v,
        None => 0,
    }
}


/// The index of the latest name that starts with `prefix`: the one with the
/// greatest sequence number, and of several such the last.
pub open spec fn latest_index(prefix: Seq<char>, names: Seq<Seq<char>>) -> Option<int>
    decreases names.len(),
{
    if names.len() == 0 {
        None
    } else {
        let rest = latest_index(prefix, names.drop_last());
        let n = names.last();
        if prefix.is_prefix_of(n) && (rest is None || seq_num(names[rest->0]) <= seq_num(n)) {
            Some(names.len() - 1)
        } else {
            rest
        }
    }
}

/// The latest name that starts with `prefix`, if any.
pub open spec fn latest_name(prefix: Seq<char>, names: Seq<Seq<char>>) -> Option<Seq<char>> {
    match latest_index(prefix, names) {
        Some(i) => Some(names[i]),
        None => None,
    }
}

/// The sequence number that follows the latest name: one past it, or 0 when no
/// name starts with `prefix`.
pub open spec fn next_number(prefix: Seq<char>, names: Seq<Seq<char>>) -> nat {
    match latest_index(prefix, names) {
        Some(i) => (seq_num(names[i]) + 1) as nat,
        None => 0,
    }
}

/// The name that follows the latest one: `<prefix>_<next number>`.
pub open spec fn next_name(prefix: Seq<char>, names: Seq<Seq<char>>) -> Seq<char> {
    prefix.push('_') + decimal(next_number(prefix, names))
}

/// The latest name starts with the prefix and carries the greatest sequence
/// number of all such names; any such name after it carries a smaller one.
/// There is none only when no name starts with the prefix.
pub proof fn lemma_latest_index_is_greatest(prefix: Seq<char>, names: Seq<Seq<char>>)
    ensures
        match latest_index(prefix, names) {
            Some(i) => {
                &&& 0 <= i < names.len()
                &&& prefix.is_prefix_of(names[i])
                &&& forall|j: int|
                    0 <= j < names.len() && prefix.is_prefix_of(#[trigger] names[j]) ==> seq_num(
                        names[j],
                    ) <= seq_num(names[i])
                &&& forall|j: int|
                    i < j < names.len() && prefix.is_prefix_of(#[trigger] names[j]) ==> seq_num(
                        names[j],
                    ) < seq_num(names[i])
            },
            None => forall|j: int| 0 <= j < names.len() ==> !prefix.is_prefix_of(#[trigger] names[j]),
        },
    decreases names.len(),
{
    if names.len() > 0 {
        let p = names.drop_last();
        lemma_latest_index_is_greatest(prefix, p);
        assert forall|j: int| 0 <= j < p.len() implies #[trigger] names[j] == p[j] by {}
        assert(names[names.len() - 1] == names.last());
    }
}

/// Whether `s` starts with `p`.
fn starts_with(s: &str, p: &Vec<char>) -> (r: bool)
    ensures
        r == p@.is_prefix_of(s@),
{
    let cs = chars_of(s);
    if p.len() > cs.len() {
        return false;
    }
    let mut i: usize = 0;
    while i < p.len()
        invariant
            cs@ == s@,
            p@.len() <= cs@.len(),
            i <= p@.len(),
            forall|j: int| 0 <= j < i ==> p@[j] == cs@[j],
        decreases p@.len() - i,
    {
        if p[i] != cs[i] {
            assert(cs@.subrange(0, p@.len() as int)[i as int] == cs@[i as int]);
            assert(p@ != cs@.subrange(0, p@.len() as int));
            return false;
        }
        i = i + 1;
    }
    assert(p@ =~= cs@.subrange(0, p@.len() as int));
    true
}

/// The position of the latest name of `names` that starts with `prefix`.
pub(crate) fn latest_position(names: &Vec<String>, prefix: &Vec<char>) -> (r: Option<usize>)
    ensures
        match r {
            Some(k) => k < names@.len() && latest_index(prefix@, string_views(names@)) == Some(
                k as int,
            ),
            None => latest_index(prefix@, string_views(names@)) is None,
        },
{
    let ghost views = string_views(names@);
    let mut best: Option<usize> = None;
    let mut best_num: u32 = 0;
    let mut i: usize = 0;
    while i < names.len()
        invariant
            i <= names@.len(),
            views == string_views(names@),
            match best {
                Some(k) => {
                    &&& latest_index(prefix@, views.subrange(0, i as int)) == Some(k as int)
                    &&& k < i
                    &&& best_num == seq_num(views[k as int])
                },
                None => latest_index(prefix@, views.subrange(0, i as int)) is None,
            },
        decreases names@.len() - i,
    {
        let ghost sub = views.subrange(0, i + 1);
        assert(sub.drop_last() =~= views.subrange(0, i as int));
        assert(sub.last() == names@[i as int]@);
        if starts_with(names[i].as_str(), prefix) {
            let num = seq_num_of(names[i].as_str());
            let replace = match best {
                Some(_) => best_num <= num,
                None => true,
            };
            if replace {
                best = Some(i);
                best_num = num;
            }
        }
        proof {
            if let Some(k) = best {
                assert(sub[k as int] == views[k as int]);
            }
        }
        i = i + 1;
    }
    assert(views.subrange(0, names@.len() as int) =~= views);
    best
}

/// Sequence-numbered names under one prefix.
pub struct NamingSchema {
    prefix: String,
}

impl View for NamingSchema {
    type V = Seq<char>;

    /// The prefix.
    closed spec fn view(&self) -> Seq<char> {
        self.prefix@
    }
}

impl NamingSchema {
    pub fn new(prefix: String) -> (r: NamingSchema)
        ensures
            r@ == prefix@,
    {
        NamingSchema { prefix }
    }

    /// The sequence number of `item_name`: its last `_`-separated segment read
    /// as a `u32`, or 0.
    pub fn parse_seq_num(&self, item_name: &str) -> (r: u32)
        ensures
            r == seq_num(item_name@),
    {
        seq_num_of(item_name)
    }

    /// The latest of the names that start with the prefix, if any.
    pub fn get_latest(&self, existing: &mut Vec<String>) -> (r: Option<String>)
        ensures
            final(existing)@ == old(existing)@,
            match r {
                Some(s) => latest_name(self@, string_views(old(existing)@)) == Some(s@),
                None => latest_name(self@, string_views(old(existing)@)) is None,
            },
    {
        let p = chars_of(self.prefix.as_str());
        match latest_position(existing, &p) {
            Some(k) => Some(existing[k].clone()),
            None => None,
        }
    }

    /// The name that follows the latest of `existing`: `<prefix>_<n + 1>` for a
    /// latest name numbered `n`, else `<prefix>_0`. The name is not among
    /// `existing`. `None` when `n + 1` does not fit a `u32`: such a name would
    /// read back as number 0.
    pub fn next(&self, existing: &mut Vec<String>) -> (r: Option<String>)
        ensures
            final(existing)@ == old(existing)@,
            match r {
                Some(s) => {
                    &&& s@ == next_name(self@, string_views(old(existing)@))
                    &&& !string_views(old(existing)@).contains(s@)
                },
                None => next_number(self@, string_views(old(existing)@)) > u32::MAX,
            },
    {
        let p = chars_of(self.prefix.as_str());
        let n: u64 = match latest_position(existing, &p) {
            Some(k) => seq_num_of(existing[k].as_str()) as u64 + 1,
            None => 0,
        };
        if n > u32::MAX as u64 {
            return None;
        }
        let mut s = self.prefix.clone();
        push_char(&mut s, '_');
        push_decimal(&mut s, n);
        proof {
            assert(self@.is_prefix_of(self@));
            lemma_successor_is_fresh(self@, self@, string_views(existing@));
        }
        Some(s)
    }
}

/// A name numbered one past the latest, on a base that starts with the prefix,
/// is the latest once added: what `load` picks after `save` is what `save`
/// wrote. The new number must fit a `u32`, else its name reads as number 0.
pub proof fn lemma_successor_is_latest(prefix: Seq<char>, base: Seq<char>, names: Seq<Seq<char>>)
    requires
        prefix.is_prefix_of(base),
        next_number(prefix, names) <= u32::MAX,
    ensures
        latest_index(prefix, names.push(base.push('_') + decimal(next_number(prefix, names))))
            == Some(names.len() as int),
{
    let n = next_number(prefix, names);
    let x = base.push('_') + decimal(n);
    let all = names.push(x);
    lemma_seq_num_of_numbered(base, n);
    lemma_latest_index_is_greatest(prefix, names);
    assert(all.drop_last() =~= names);
    assert(x.subrange(0, prefix.len() as int) =~= base.subrange(0, prefix.len() as int));
    if let Some(i) = latest_index(prefix, names) {
        assert(all[i] == names[i]);
    }
}

/// The name `next` gives is the one `get_latest` returns once it exists.
pub proof fn lemma_next_is_latest(prefix: Seq<char>, names: Seq<Seq<char>>)
    requires
        next_number(prefix, names) <= u32::MAX,
    ensures
        latest_name(prefix, names.push(next_name(prefix, names))) == Some(next_name(prefix, names)),
{
    assert(prefix.is_prefix_of(prefix));
    lemma_successor_is_latest(prefix, prefix, names);
}

/// A name numbered one past the latest, on a base that starts with the prefix,
/// is not among the names: any listed name that starts with the prefix carries
/// a smaller number. The new number must fit a `u32`.
pub proof fn lemma_successor_is_fresh(prefix: Seq<char>, base: Seq<char>, names: Seq<Seq<char>>)
    requires
        prefix.is_prefix_of(base),
        next_number(prefix, names) <= u32::MAX,
    ensures
        !names.contains(base.push('_') + decimal(next_number(prefix, names))),
{
    let n = next_number(prefix, names);
    let x = base.push('_') + decimal(n);
    lemma_seq_num_of_numbered(base, n);
    lemma_latest_index_is_greatest(prefix, names);
    assert(x.subrange(0, prefix.len() as int) =~= base.subrange(0, prefix.len() as int));
    assert(prefix.is_prefix_of(x));
    if names.contains(x) {
        let j = choose|j: int| 0 <= j < names.len() && names[j] == x;
        assert(prefix.is_prefix_of(names[j]));
    }
}

} // verus!
