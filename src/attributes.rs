use vstd::prelude::*;

use crate::text::{split_fields, split_on, string_of};

verus! {

/// `s` without its leading spaces.
pub open spec fn strip_front(s: Seq<char>) -> Seq<char>
    decreases s.len(),
{
    if s.len() > 0 && s[0] == ' ' {
        strip_front(s.drop_first())
    } else {
        s
    }
}

/// `s` without its trailing spaces.
pub open spec fn strip_back(s: Seq<char>) -> Seq<char>
    decreases s.len(),
{
    if s.len() > 0 && s.last() == ' ' {
        strip_back(s.drop_last())
    } else {
        s
    }
}

/// `s` without surrounding spaces.
pub open spec fn trim_spaces(s: Seq<char>) -> Seq<char> {
    strip_back(strip_front(s))
}

/// A character that separates a key from its value: `=` or a space.
pub open spec fn is_separator(c: char) -> bool {
    c == '=' || c == ' '
}

/// The position of the first separator in `s`, if there is one.
pub open spec fn first_separator(s: Seq<char>) -> Option<int>
    decreases s.len(),
{
    if s.len() == 0 {
        None
    } else if is_separator(s[0]) {
        Some(0)
    } else {
        match first_separator(s.drop_first()) {
            Some(p) => Some(p + 1),
            None => None,
        }
    }
}

/// `v` without one pair of surrounding double quotes, if it has them.
pub open spec fn unquote(v: Seq<char>) -> Seq<char> {
    if v.len() >= 2 && v[0] == '"' && v.last() == '"' {
        v.subrange(1, v.len() - 1)
    } else {
        v
    }
}

/// The key and value of one trimmed, non-empty fragment: the text before its
/// first separator, and the text after it without surrounding quotes.
pub open spec fn key_value_of(t: Seq<char>) -> Option<(Seq<char>, Seq<char>)> {
    match first_separator(t) {
        Some(p) => Some((t.subrange(0, p), unquote(t.subrange(p + 1, t.len() as int)))),
        None => None,
    }
}

/// The key/value pairs of a list of fragments, in order. Empty fragments are
/// skipped; the others are trimmed, and the first one without a separator
/// (a fragment of spaces only, too) is the error.
pub open spec fn pairs_of_fragments(frags: Seq<Seq<char>>) -> Result<
    Seq<(Seq<char>, Seq<char>)>,
    Seq<char>,
>
    decreases frags.len(),
{
    if frags.len() == 0 {
        Ok(Seq::empty())
    } else {
        match pairs_of_fragments(frags.drop_last()) {
            Err(e) => Err(e),
            Ok(prev) => {
                let t = trim_spaces(frags.last());
                if frags.last().len() == 0 {
                    Ok(prev)
                } else {
                    match key_value_of(t) {
                        Some(kv) => Ok(prev.push(kv)),
                        None => Err(frags.last()),
                    }
                }
            },
        }
    }
}

/// The key/value pairs of an attribute column: `key "value";` and
/// `key=value;` fragments separated by `;`.
pub open spec fn attribute_pairs(s: Seq<char>) -> Result<Seq<(Seq<char>, Seq<char>)>, Seq<char>> {
    pairs_of_fragments(split_fields(s, ';'))
}

/// The value of `key`: the last pair that has it wins.
pub open spec fn lookup(pairs: Seq<(Seq<char>, Seq<char>)>, key: Seq<char>) -> Option<Seq<char>>
    decreases pairs.len(),
{
    if pairs.len() == 0 {
        None
    } else if pairs.last().0 == key {
        Some(pairs.last().1)
    } else {
        lookup(pairs.drop_last(), key)
    }
}

/// The parsed attributes of one annotation line, in the order they came.
pub struct Attributes {
    pub pairs: Vec<(String, String)>,
}

impl View for Attributes {
    type V = Seq<(Seq<char>, Seq<char>)>;

    open spec fn view(&self) -> Seq<(Seq<char>, Seq<char>)> {
        self.pairs@.map_values(|p: (String, String)| (p.0@, p.1@))
    }
}

proof fn lemma_strip_front_step(s: Seq<char>, i: int)
    requires
        0 <= i < s.len(),
        s[i] == ' ',
    ensures
        strip_front(s.subrange(i, s.len() as int)) == strip_front(s.subrange(i + 1, s.len() as int)),
{
    let t = s.subrange(i, s.len() as int);
    assert(t.drop_first() =~= s.subrange(i + 1, s.len() as int));
}

proof fn lemma_strip_back_step(s: Seq<char>, j: int)
    requires
        0 < j <= s.len(),
        s[j - 1] == ' ',
    ensures
        strip_back(s.subrange(0, j)) == strip_back(s.subrange(0, j - 1)),
{
    let t = s.subrange(0, j);
    assert(t.drop_last() =~= s.subrange(0, j - 1));
}

/// Trims surrounding spaces.
fn trim(s: &Vec<char>) -> (r: Vec<char>)
    ensures
        r@ == trim_spaces(s@),
{
    let n = s.len();
    let mut lo: usize = 0;
    proof {
        assert(s@.subrange(0, n as int) =~= s@);
    }
    while lo < n && s[lo] == ' '
        invariant
            0 <= lo <= n == s@.len(),
            strip_front(s@) == strip_front(s@.subrange(lo as int, n as int)),
        decreases n - lo,
    {
        proof {
            lemma_strip_front_step(s@, lo as int);
        }
        lo = lo + 1;
    }
    let ghost front = s@.subrange(lo as int, n as int);
    proof {
        assert(s@.subrange(0, n as int) =~= s@);
        if front.len() > 0 {
            assert(front[0] == s@[lo as int]);
        }
        assert(strip_front(front) == front);
    }
    let mut hi: usize = n;
    while hi > lo && s[hi - 1] == ' '
        invariant
            lo <= hi <= n == s@.len(),
            front == s@.subrange(lo as int, n as int),
            strip_back(front) == strip_back(s@.subrange(lo as int, hi as int)),
        decreases hi,
    {
        proof {
            let t = s@.subrange(lo as int, n as int);
            lemma_strip_back_step(t, hi - lo);
            assert(t.subrange(0, hi - lo) =~= s@.subrange(lo as int, hi as int));
            assert(t.subrange(0, hi - lo - 1) =~= s@.subrange(lo as int, hi - 1));
        }
        hi = hi - 1;
    }
    let mut r: Vec<char> = Vec::new();
    let mut k: usize = lo;
    while k < hi
        invariant
            lo <= k <= hi <= n == s@.len(),
            r@ == s@.subrange(lo as int, k as int),
        decreases hi - k,
    {
        r.push(s[k]);
        proof {
            assert(r@ =~= s@.subrange(lo as int, k + 1));
        }
        k = k + 1;
    }
    proof {
        let m = s@.subrange(lo as int, hi as int);
        if m.len() > 0 {
            assert(m.last() == s@[hi - 1]);
        }
        assert(strip_back(m) == m);
    }
    r
}

proof fn lemma_first_separator(s: Seq<char>, i: int)
    requires
        0 <= i <= s.len(),
        forall|j: int| 0 <= j < i ==> !is_separator(#[trigger] s[j]),
    ensures
        i < s.len() && is_separator(s[i]) ==> first_separator(s) == Some(i),
        i == s.len() ==> first_separator(s) is None,
    decreases i,
{
    if i > 0 {
        let t = s.drop_first();
        assert forall|j: int| 0 <= j < i - 1 implies !is_separator(#[trigger] t[j]) by {
            assert(t[j] == s[j + 1]);
        }
        lemma_first_separator(t, i - 1);
        assert(!is_separator(s[0]));
    }
}

/// Copies `s[from..to]`.
fn slice_of(s: &Vec<char>, from: usize, to: usize) -> (r: Vec<char>)
    requires
        from <= to <= s@.len(),
    ensures
        r@ == s@.subrange(from as int, to as int),
{
    let mut r: Vec<char> = Vec::new();
    let mut k: usize = from;
    while k < to
        invariant
            from <= k <= to <= s@.len(),
            r@ == s@.subrange(from as int, k as int),
        decreases to - k,
    {
        r.push(s[k]);
        proof {
            assert(r@ =~= s@.subrange(from as int, k + 1));
        }
        k = k + 1;
    }
    r
}

/// Splits a trimmed fragment into its key and its unquoted value.
fn key_value(t: &Vec<char>) -> (r: Option<(String, String)>)
    ensures
        r matches Some(kv) ==> key_value_of(t@) == Some((kv.0@, kv.1@)),
        r is None ==> key_value_of(t@) is None,
{
    let n = t.len();
    let mut p: usize = 0;
    while p < n && !(t[p] == '=' || t[p] == ' ')
        invariant
            0 <= p <= n == t@.len(),
            forall|j: int| 0 <= j < p ==> !is_separator(#[trigger] t@[j]),
        decreases n - p,
    {
        p = p + 1;
    }
    proof {
        lemma_first_separator(t@, p as int);
    }
    if p == n {
        return None;
    }
    let key = slice_of(t, 0, p);
    let raw = slice_of(t, p + 1, n);
    let m = raw.len();
    let value = if m >= 2 && raw[0] == '"' && raw[m - 1] == '"' {
        slice_of(&raw, 1, m - 1)
    } else {
        raw
    };
    Some((string_of(key.as_slice()), string_of(value.as_slice())))
}

impl Attributes {
    /// Parses an attribute column. On a fragment with no key/value separator
    /// the error is that fragment.
    pub fn parse(s: &Vec<char>) -> (r: Result<Attributes, Vec<char>>)
        ensures
            r matches Ok(a) ==> attribute_pairs(s@) == Ok::<_, Seq<char>>(a@),
            r matches Err(e) ==> attribute_pairs(s@) == Err::<Seq<(Seq<char>, Seq<char>)>, _>(e@),
    {
        let frags = split_on(s, ';');
        let ghost fs = split_fields(s@, ';');
        let mut pairs: Vec<(String, String)> = Vec::new();
        let mut i: usize = 0;
        proof {
            assert(fs.subrange(0, 0) =~= Seq::<Seq<char>>::empty());
            assert((Attributes { pairs })@ =~= Seq::empty());
        }
        while i < frags.len()
            invariant
                0 <= i <= frags@.len() == fs.len(),
                fs == split_fields(s@, ';'),
                forall|j: int| 0 <= j < frags@.len() ==> #[trigger] frags@[j]@ == fs[j],
                pairs_of_fragments(fs.subrange(0, i as int)) == Ok::<_, Seq<char>>(
                    (Attributes { pairs })@,
                ),
            decreases frags@.len() - i,
        {
            let ghost pre = fs.subrange(0, i as int);
            proof {
                assert(fs.subrange(0, i + 1).drop_last() =~= pre);
            }
            if frags[i].len() > 0 {
                let t = trim(&frags[i]);
                match key_value(&t) {
                    Some(kv) => {
                        let ghost old_view = (Attributes { pairs })@;
                        pairs.push(kv);
                        proof {
                            assert((Attributes { pairs })@ =~= old_view.push((kv.0@, kv.1@)));
                        }
                    },
                    None => {
                        let e = slice_of(&frags[i], 0, frags[i].len());
                        proof {
                            assert(e@ =~= fs[i as int]);
                            let cur = fs.subrange(0, i + 1);
                            assert(cur.last() == fs[i as int]);
                            assert(cur.drop_last() =~= pre);
                            assert(trim_spaces(cur.last()) == t@);
                            assert(pairs_of_fragments(cur) == Err::<
                                Seq<(Seq<char>, Seq<char>)>,
                                Seq<char>,
                            >(fs[i as int]));
                            lemma_error_sticks(fs, i as int + 1);
                        }
                        return Err(e);
                    },
                }
            }
            i = i + 1;
        }
        proof {
            assert(fs.subrange(0, fs.len() as int) =~= fs);
        }
        Ok(Attributes { pairs })
    }

    /// The value of `key`, the last one where the key repeats.
    pub fn get(&self, key: &String) -> (r: Option<&String>)
        ensures
            r matches Some(v) ==> lookup(self@, key@) == Some(v@),
            r is None ==> lookup(self@, key@) is None,
    {
        let mut i: usize = self.pairs.len();
        proof {
            assert(self@.subrange(0, i as int) =~= self@);
        }
        while i > 0
            invariant
                0 <= i <= self.pairs@.len(),
                lookup(self@, key@) == lookup(self@.subrange(0, i as int), key@),
            decreases i,
        {
            let ghost pre = self@.subrange(0, i as int);
            proof {
                assert(pre.drop_last() =~= self@.subrange(0, i - 1));
            }
            if self.pairs[i - 1].0 == *key {
                return Some(&self.pairs[i - 1].1);
            }
            i = i - 1;
        }
        None
    }
}

/// An error in a fragment is kept however many fragments follow.
proof fn lemma_error_sticks(fs: Seq<Seq<char>>, k: int)
    requires
        0 < k <= fs.len(),
        pairs_of_fragments(fs.subrange(0, k)) is Err,
    ensures
        pairs_of_fragments(fs) == pairs_of_fragments(fs.subrange(0, k)),
    decreases fs.len() - k,
{
    if k < fs.len() {
        assert(fs.subrange(0, k + 1).drop_last() =~= fs.subrange(0, k));
        lemma_error_sticks(fs, k + 1);
    } else {
        assert(fs.subrange(0, k) =~= fs);
    }
}

} // verus!
