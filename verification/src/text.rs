use vstd::prelude::*;
use vstd::string::{StrSliceExecFns, StringExecFns};

verus! {

/// Whether `c` is white space as `char::is_whitespace` says: whether it has
/// the Unicode `White_Space` property.
pub open spec fn is_space(c: char) -> bool {
    let n = c as u32;
    ||| 0x9 <= n <= 0xD
    ||| n == 0x20
    ||| n == 0x85
    ||| n == 0xA0
    ||| n == 0x1680
    ||| 0x2000 <= n <= 0x200A
    ||| n == 0x2028
    ||| n == 0x2029
    ||| n == 0x202F
    ||| n == 0x205F
    ||| n == 0x3000
}

fn space(c: char) -> (r: bool)
    ensures
        r == is_space(c),
{
    let n = c as u32;
    (0x9 <= n && n <= 0xD) || n == 0x20 || n == 0x85 || n == 0xA0 || n == 0x1680 || (0x2000 <= n && n <= 0x200A)
        || n == 0x2028 || n == 0x2029 || n == 0x202F || n == 0x205F || n == 0x3000
}

/// `s` without its trailing white space, as `str::trim_end` gives it.
pub open spec fn trimmed_end(s: Seq<char>) -> Seq<char>
    decreases s.len(),
{
    if s.len() > 0 && is_space(s.last()) {
        trimmed_end(s.drop_last())
    } else {
        s
    }
}

/// Splitting `s` at each space: the pieces closed so far and the open one.
pub open spec fn split_state(s: Seq<char>) -> (Seq<Seq<char>>, Seq<char>)
    decreases s.len(),
{
    if s.len() == 0 {
        (Seq::empty(), Seq::empty())
    } else {
        let (done, cur) = split_state(s.drop_last());
        if s.last() == ' ' {
            (done.push(cur), Seq::empty())
        } else {
            (done, cur.push(s.last()))
        }
    }
}

/// The pieces of `s` between its spaces, as `str::split(" ")` gives them:
/// there is one more piece than there are spaces.
pub open spec fn pieces(s: Seq<char>) -> Seq<Seq<char>> {
    split_state(s).0.push(split_state(s).1)
}

/// Whether `c` is one of the digits 0 to 9.
pub open spec fn is_digit(c: char) -> bool {
    48 <= (c as u32) <= 57
}

/// The number that the digits `s` spell in decimal.
pub open spec fn digits_value(s: Seq<char>) -> int
    decreases s.len(),
{
    if s.len() == 0 {
        0
    } else {
        digits_value(s.drop_last()) * 10 + ((s.last() as u32) - 48)
    }
}

/// `s` is one or more digits.
pub open spec fn all_digits(s: Seq<char>) -> bool {
    s.len() > 0 && forall|i: int| 0 <= i < s.len() ==> is_digit(#[trigger] s[i])
}

/// The number `s` spells: digits after an optional `+` or `-`, and nothing
/// else, as the `from_str` of the integer types reads it.
pub open spec fn decimal(s: Seq<char>) -> Option<int> {
    if s.len() > 0 && s[0] == '-' && all_digits(s.drop_first()) {
        Some(-digits_value(s.drop_first()))
    } else if s.len() > 0 && s[0] == '+' && all_digits(s.drop_first()) {
        Some(digits_value(s.drop_first()))
    } else if all_digits(s) {
        Some(digits_value(s))
    } else {
        None
    }
}

/// The number `s` spells when it lies in `lo ..= hi`.
pub open spec fn decimal_in(s: Seq<char>, lo: int, hi: int) -> Option<int> {
    match decimal(s) {
        Some(v) => if lo <= v <= hi {
            Some(v)
        } else {
            None
        },
        None => None,
    }
}

proof fn lemma_digits_value_nonneg(s: Seq<char>)
    requires
        forall|i: int| 0 <= i < s.len() ==> is_digit(#[trigger] s[i]),
    ensures
        digits_value(s) >= 0,
    decreases s.len(),
{
    if s.len() > 0 {
        assert forall|i: int| 0 <= i < s.drop_last().len() implies is_digit(#[trigger] s.drop_last()[i]) by {
            assert(s.drop_last()[i] == s[i]);
        }
        lemma_digits_value_nonneg(s.drop_last());
        assert(is_digit(s[s.len() - 1]));
    }
}

/// The value of the digits `cs[from..]`, when all are digits and their value
/// is at most `cap`.
fn digits_up_to(cs: &Vec<char>, from: usize, cap: i64) -> (r: Option<i64>)
    requires
        from <= cs@.len(),
        0 <= cap <= 0x1_0000_0000,
    ensures
        match r {
            Some(v) => all_digits(cs@.skip(from as int)) && v == digits_value(cs@.skip(from as int)) && 0 <= v <= cap,
            None => !all_digits(cs@.skip(from as int)) || digits_value(cs@.skip(from as int)) > cap,
        },
{
    let ghost t = cs@.skip(from as int);
    if from == cs.len() {
        return None;
    }
    let mut v: i64 = 0;
    let mut over = false;
    let mut i: usize = from;
    proof {
        assert(cs@.subrange(from as int, from as int) =~= Seq::<char>::empty());
    }
    while i < cs.len()
        invariant
            from <= i <= cs@.len(),
            0 <= cap <= 0x1_0000_0000,
            t == cs@.skip(from as int),
            forall|k: int| from <= k < i ==> is_digit(#[trigger] cs@[k]),
            !over ==> 0 <= v <= cap && v == digits_value(cs@.subrange(from as int, i as int)),
            over ==> digits_value(cs@.subrange(from as int, i as int)) > cap,
        decreases cs.len() - i,
    {
        let c = cs[i];
        let n = c as u32;
        if n < 48 || n > 57 {
            proof {
                assert(t[i - from] == c);
                assert(!is_digit(t[i - from]));
            }
            return None;
        }
        let ghost pre = cs@.subrange(from as int, i as int);
        let ghost next = cs@.subrange(from as int, i + 1);
        proof {
            assert(next.drop_last() =~= pre);
            assert(next.last() == c);
            assert(digits_value(next) == digits_value(pre) * 10 + (n - 48));
            assert forall|k: int| 0 <= k < pre.len() implies is_digit(#[trigger] pre[k]) by {
                assert(pre[k] == cs@[from + k]);
            }
            lemma_digits_value_nonneg(pre);
        }
        if !over {
            let w = v * 10 + (n - 48) as i64;
            if w > cap {
                over = true;
            } else {
                v = w;
            }
        }
        i = i + 1;
    }
    proof {
        assert(cs@.subrange(from as int, cs@.len() as int) =~= t);
        assert forall|k: int| 0 <= k < t.len() implies is_digit(#[trigger] t[k]) by {
            assert(t[k] == cs@[from + k]);
        }
    }
    if over {
        None
    } else {
        Some(v)
    }
}

/// The number the characters `cs` spell, when it lies in `lo ..= hi`.
fn decimal_of(cs: &Vec<char>, lo: i64, hi: i64) -> (r: Option<i64>)
    requires
        -0x8000_0000 <= lo <= 0,
        0 <= hi <= 0x7fff_ffff,
    ensures
        match r {
            Some(v) => decimal_in(cs@, lo as int, hi as int) == Some(v as int),
            None => decimal_in(cs@, lo as int, hi as int) is None,
        },
{
    let ghost s = cs@;
    if cs.len() > 0 && (cs[0] == '-' || cs[0] == '+') {
        proof {
            assert(s.skip(1) =~= s.drop_first());
            assert(!all_digits(s)) by {
                assert(!is_digit(s[0]));
            }
        }
        if cs[0] == '-' {
            proof {
                assert(s[0] == '-');
            }
            match digits_up_to(cs, 1, -lo) {
                Some(v) => Some(-v),
                None => None,
            }
        } else {
            proof {
                assert(s[0] == '+');
            }
            match digits_up_to(cs, 0 + 1, hi) {
                Some(v) => Some(v),
                None => None,
            }
        }
    } else {
        proof {
            assert(s.skip(0) =~= s);
        }
        match digits_up_to(cs, 0, hi) {
            Some(v) => Some(v),
            None => None,
        }
    }
}

/// What `i16::from_str` gives for `s`.
pub open spec fn parsed_i16(s: Seq<char>) -> Option<i16> {
    match decimal_in(s, i16::MIN as int, i16::MAX as int) {
        Some(v) => Some(v as i16),
        None => None,
    }
}

/// What `i32::from_str` gives for `s`.
pub open spec fn parsed_i32(s: Seq<char>) -> Option<i32> {
    match decimal_in(s, i32::MIN as int, i32::MAX as int) {
        Some(v) => Some(v as i32),
        None => None,
    }
}

/// The characters of `s`, in order.
fn chars_of(s: &str) -> (r: Vec<char>)
    ensures
        r@ == s@,
{
    let n = s.unicode_len();
    let mut r: Vec<char> = Vec::new();
    let mut i: usize = 0;
    while i < n
        invariant
            i <= n,
            n == s@.len(),
            r@ == s@.take(i as int),
        decreases n - i,
    {
        r.push(s.get_char(i));
        i = i + 1;
        proof {
            assert(r@ =~= s@.take(i as int));
        }
    }
    assert(s@.take(n as int) =~= s@);
    r
}

/// Reads `s` as an `i32`, as `i32::from_str` does.
pub fn parse_i32(s: &str) -> (r: Option<i32>)
    ensures
        r == parsed_i32(s@),
{
    let cs = chars_of(s);
    match decimal_of(&cs, -0x8000_0000, 0x7fff_ffff) {
        Some(v) => Some(v as i32),
        None => None,
    }
}

/// The numbers among the pieces `ps` that read as an `i16`, in order.
pub open spec fn hours_in(ps: Seq<Seq<char>>) -> Seq<i16>
    decreases ps.len(),
{
    if ps.len() == 0 {
        Seq::empty()
    } else {
        let r = hours_in(ps.drop_last());
        match parsed_i16(ps.last()) {
            Some(h) => r.push(h),
            None => r,
        }
    }
}

/// The hour counts written in `text`: the pieces between the spaces of
/// `text` without its trailing white space, those that read as an `i16`, in
/// order.
pub fn act_hours(text: &str) -> (r: Vec<i16>)
    ensures
        r@ == hours_in(pieces(trimmed_end(text@))),
{
    let cs = chars_of(text);
    let mut k: usize = cs.len();
    proof {
        assert(cs@.take(cs@.len() as int) =~= cs@);
    }
    while k > 0
        invariant
            k <= cs@.len(),
            trimmed_end(cs@) == trimmed_end(cs@.take(k as int)),
        ensures
            k <= cs@.len(),
            trimmed_end(cs@) == trimmed_end(cs@.take(k as int)),
            k == 0 || !is_space(cs@[k - 1]),
        decreases k,
    {
        if !space(cs[k - 1]) {
            break;
        }
        proof {
            assert(cs@.take(k as int).drop_last() =~= cs@.take(k - 1));
        }
        k = k - 1;
    }
    let ghost t = cs@.take(k as int);
    proof {
        if k > 0 {
            assert(t.last() == cs@[k - 1]);
        }
        assert(trimmed_end(t) == t);
        assert(cs@ == text@);
    }
    let mut hours: Vec<i16> = Vec::new();
    let mut cur: Vec<char> = Vec::new();
    let mut i: usize = 0;
    proof {
        assert(t.take(0) =~= Seq::<char>::empty());
    }
    while i < k
        invariant
            i <= k <= cs@.len(),
            t == cs@.take(k as int),
            hours@ == hours_in(split_state(t.take(i as int)).0),
            cur@ == split_state(t.take(i as int)).1,
        decreases k - i,
    {
        let c = cs[i];
        proof {
            assert(t.take(i + 1).drop_last() =~= t.take(i as int));
            assert(t.take(i + 1).last() == c);
        }
        if c == ' ' {
            let ghost done = split_state(t.take(i as int)).0;
            match decimal_of(&cur, -32768, 32767) {
                Some(v) => {
                    hours.push(v as i16);
                },
                None => {},
            }
            proof {
                assert(done.push(cur@).drop_last() =~= done);
            }
            cur = Vec::new();
        } else {
            cur.push(c);
        }
        i = i + 1;
    }
    let ghost done = split_state(t).0;
    proof {
        assert(t.take(k as int) =~= t);
        assert(pieces(t).drop_last() =~= done);
        assert(pieces(t).last() == cur@);
    }
    match decimal_of(&cur, -32768, 32767) {
        Some(v) => {
            hours.push(v as i16);
        },
        None => {},
    }
    hours
}


/// `needle` occurs in `hay`.
pub open spec fn has_part(hay: Seq<char>, needle: Seq<char>) -> bool {
    exists|i: int| 0 <= i && i + needle.len() <= hay.len() && #[trigger] hay.subrange(i, i + needle.len()) == needle
}

/// Whether `needle` occurs in `hay`, as `str::contains` says.
pub fn contains_text(hay: &str, needle: &str) -> (r: bool)
    ensures
        r == has_part(hay@, needle@),
{
    let h = chars_of(hay);
    let n = chars_of(needle);
    if n.len() > h.len() {
        return false;
    }
    let mut i: usize = 0;
    let hl = h.len();
    let last = hl - n.len();
    while i <= last
        invariant
            last == h@.len() - n@.len(),
            hl == h@.len(),
            h@ == hay@,
            n@ == needle@,
            n@.len() <= h@.len(),
            i <= h@.len() - n@.len() + 1,
            forall|k: int| 0 <= k < i ==> #[trigger] h@.subrange(k, k + n@.len()) != n@,
        decreases h.len() - i,
    {
        let mut j: usize = 0;
        let mut same = true;
        while j < n.len()
            invariant
                i + n@.len() <= h@.len(),
                hl == h@.len(),
                h@ == hay@,
                n@ == needle@,
                j <= n@.len(),
                same == forall|x: int| 0 <= x < j ==> h@[i + x] == n@[x],
            decreases n.len() - j,
        {
            if h[i + j] != n[j] {
                same = false;
            }
            j = j + 1;
        }
        if same {
            proof {
                assert(h@.subrange(i as int, i + n@.len()) =~= n@);
            }
            return true;
        }
        proof {
            assert(h@.subrange(i as int, i + n@.len()) != n@) by {
                let x = choose|x: int| 0 <= x < n@.len() && h@[i + x] != n@[x];
                assert(h@.subrange(i as int, i + n@.len())[x] == h@[i + x]);
            }
        }
        i = i + 1;
    }
    false
}

/// What `str::to_uppercase` gives for `s`.
pub uninterp spec fn uppercase(s: Seq<char>) -> Seq<char>;

/// Calls `str::to_uppercase`. What it gives is named [`uppercase`]; the
/// Unicode case mapping it applies, which can change the number of
/// characters, is left unsaid.
#[verifier::external_body]
pub(crate) fn to_upper(s: &str) -> (r: String)
    ensures
        r@ == uppercase(s@),
{
    s.to_uppercase()
}

} // verus!
