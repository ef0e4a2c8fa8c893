use vstd::prelude::*;
use crate::text::{chars_of, push_text, same_text, string_of};

verus! {

/// Whether no key occurs twice among the pairs.
pub open spec fn keys_unique(s: Seq<(Seq<char>, Seq<char>)>) -> bool {
    forall|i: int, j: int| 0 <= i < j < s.len() ==> s[i].0 != s[j].0
}

/// The map that the pairs make when inserted in order, later ones winning.
pub open spec fn pairs_map(s: Seq<(Seq<char>, Seq<char>)>) -> Map<Seq<char>, Seq<char>>
    decreases s.len(),
{
    if s.len() == 0 {
        Map::empty()
    } else {
        pairs_map(s.drop_last()).insert(s.last().0, s.last().1)
    }
}

/// A string-to-string map that keeps its entries in the order they were
/// first inserted, each key at most once.
#[derive(Debug)]
pub struct KvMap {
    pub entries: Vec<(String, String)>,
}

impl View for KvMap {
    type V = Seq<(Seq<char>, Seq<char>)>;

    open spec fn view(&self) -> Seq<(Seq<char>, Seq<char>)> {
        self.entries@.map_values(|p: (String, String)| (p.0@, p.1@))
    }
}

proof fn lemma_pairs_map_keys(s: Seq<(Seq<char>, Seq<char>)>, k: Seq<char>)
    ensures
        pairs_map(s).contains_key(k) <==> exists|i: int| 0 <= i < s.len() && s[i].0 == k,
    decreases s.len(),
{
    if s.len() > 0 {
        lemma_pairs_map_keys(s.drop_last(), k);
        if pairs_map(s.drop_last()).contains_key(k) {
            let i = choose|i: int| 0 <= i < s.drop_last().len() && s.drop_last()[i].0 == k;
            assert(s[i].0 == k);
        }
        if exists|i: int| 0 <= i < s.len() && s[i].0 == k {
            let i = choose|i: int| 0 <= i < s.len() && s[i].0 == k;
            if i < s.len() - 1 {
                assert(s.drop_last()[i].0 == k);
            }
        }
    }
}

proof fn lemma_pairs_map_value(s: Seq<(Seq<char>, Seq<char>)>, i: int)
    requires
        keys_unique(s),
        0 <= i < s.len(),
    ensures
        pairs_map(s).contains_key(s[i].0),
        pairs_map(s)[s[i].0] == s[i].1,
    decreases s.len(),
{
    if i < s.len() - 1 {
        lemma_pairs_map_value(s.drop_last(), i);
    }
}

proof fn lemma_pairs_map_update(s: Seq<(Seq<char>, Seq<char>)>, i: int, v: Seq<char>)
    requires
        keys_unique(s),
        0 <= i < s.len(),
    ensures
        pairs_map(s.update(i, (s[i].0, v))) == pairs_map(s).insert(s[i].0, v),
        keys_unique(s.update(i, (s[i].0, v))),
    decreases s.len(),
{
    let t = s.update(i, (s[i].0, v));
    if i == s.len() - 1 {
        assert(t.drop_last() =~= s.drop_last());
        assert(pairs_map(t) =~= pairs_map(s).insert(s[i].0, v));
    } else {
        assert(t.drop_last() =~= s.drop_last().update(i, (s[i].0, v)));
        lemma_pairs_map_update(s.drop_last(), i, v);
        assert(pairs_map(t) =~= pairs_map(s).insert(s[i].0, v));
    }
}

proof fn lemma_pairs_map_remove(s: Seq<(Seq<char>, Seq<char>)>, i: int)
    requires
        keys_unique(s),
        0 <= i < s.len(),
    ensures
        pairs_map(s.remove(i)) == pairs_map(s).remove(s[i].0),
        keys_unique(s.remove(i)),
    decreases s.len(),
{
    let t = s.remove(i);
    if i == s.len() - 1 {
        assert(t =~= s.drop_last());
        lemma_pairs_map_keys(s.drop_last(), s[i].0);
        assert(pairs_map(t) =~= pairs_map(s).remove(s[i].0));
    } else {
        assert(t.drop_last() =~= s.drop_last().remove(i));
        lemma_pairs_map_remove(s.drop_last(), i);
        assert(pairs_map(t) =~= pairs_map(s).remove(s[i].0));
    }
}

impl KvMap {
    /// Each key occurs at most once.
    pub open spec fn wf(&self) -> bool {
        keys_unique(self@)
    }

    /// The mapping that the entries hold.
    pub open spec fn map(&self) -> Map<Seq<char>, Seq<char>> {
        pairs_map(self@)
    }

    pub fn new() -> (r: KvMap)
        ensures
            r@ == Seq::<(Seq<char>, Seq<char>)>::empty(),
            r.wf(),
            r.map() == Map::<Seq<char>, Seq<char>>::empty(),
    {
        KvMap { entries: Vec::new() }
    }

    /// The number of entries.
    pub fn len(&self) -> (r: usize)
        ensures
            r == self@.len(),
    {
        self.entries.len()
    }

    /// Whether the map holds no entry.
    pub fn is_empty(&self) -> (r: bool)
        ensures
            r == (self.map() == Map::<Seq<char>, Seq<char>>::empty()),
    {
        proof {
            if self@.len() > 0 {
                assert(self.map().contains_key(self@.last().0));
            } else {
                assert(self.map() =~= Map::<Seq<char>, Seq<char>>::empty());
            }
        }
        self.entries.len() == 0
    }

    /// A copy of the map, entry for entry.
    pub fn copy(&self) -> (r: KvMap)
        ensures
            r@ == self@,
    {
        let mut entries: Vec<(String, String)> = Vec::new();
        let mut i: usize = 0;
        while i < self.entries.len()
            invariant
                i <= self@.len(),
                entries@.map_values(|p: (String, String)| (p.0@, p.1@)) == self@.take(i as int),
            decreases self@.len() - i,
        {
            let k = self.entries[i].0.clone();
            let v = self.entries[i].1.clone();
            let ghost before = entries@;
            entries.push((k, v));
            assert(entries@.map_values(|p: (String, String)| (p.0@, p.1@)) =~= before.map_values(
                |p: (String, String)| (p.0@, p.1@),
            ).push(self@[i as int]));
            assert(self@.take(i + 1) =~= self@.take(i as int).push(self@[i as int]));
            i = i + 1;
        }
        assert(self@.take(i as int) =~= self@);
        KvMap { entries }
    }

    /// The index of the entry with key `k`.
    fn find(&self, k: &str) -> (r: Option<usize>)
        ensures
            r matches Some(i) ==> i < self@.len() && self@[i as int].0 == k@,
            r is None ==> forall|i: int| 0 <= i < self@.len() ==> self@[i].0 != k@,
    {
        let mut i: usize = 0;
        while i < self.entries.len()
            invariant
                i <= self@.len(),
                forall|j: int| 0 <= j < i ==> self@[j].0 != k@,
            decreases self@.len() - i,
        {
            if same_text(self.entries[i].0.as_str(), k) {
                return Some(i);
            }
            i = i + 1;
        }
        None
    }

    /// The value under key `k`.
    pub fn get(&self, k: &str) -> (r: Option<&String>)
        requires
            self.wf(),
        ensures
            r is Some == self.map().contains_key(k@),
            r matches Some(v) ==> v@ == self.map()[k@],
    {
        proof {
            lemma_pairs_map_keys(self@, k@);
        }
        match self.find(k) {
            Some(i) => {
                proof {
                    lemma_pairs_map_value(self@, i as int);
                }
                Some(&self.entries[i].1)
            },
            None => None,
        }
    }

    /// Sets the value under key `k`; a new key goes after the others.
    pub fn insert(&mut self, k: String, v: String)
        requires
            old(self).wf(),
        ensures
            final(self).wf(),
            final(self).map() == old(self).map().insert(k@, v@),
    {
        match self.find(k.as_str()) {
            Some(i) => {
                proof {
                    lemma_pairs_map_update(old(self)@, i as int, v@);
                }
                self.entries.remove(i);
                self.entries.insert(i, (k, v));
                assert(self@ =~= old(self)@.update(i as int, (k@, v@)));
            },
            None => {
                proof {
                    lemma_pairs_map_keys(old(self)@, k@);
                }
                self.entries.push((k, v));
                assert(self@ =~= old(self)@.push((k@, v@)));
                assert(self@.drop_last() =~= old(self)@);
            },
        }
    }

    /// Takes out the entry with key `k` and returns its value.
    pub fn remove(&mut self, k: &str) -> (r: Option<String>)
        requires
            old(self).wf(),
        ensures
            final(self).wf(),
            final(self).map() == old(self).map().remove(k@),
            r is Some == old(self).map().contains_key(k@),
            r matches Some(v) ==> v@ == old(self).map()[k@],
    {
        proof {
            lemma_pairs_map_keys(old(self)@, k@);
        }
        match self.find(k) {
            Some(i) => {
                proof {
                    lemma_pairs_map_value(old(self)@, i as int);
                    lemma_pairs_map_remove(old(self)@, i as int);
                }
                let (_, v) = self.entries.remove(i);
                assert(self@ =~= old(self)@.remove(i as int));
                Some(v)
            },
            None => {
                assert(old(self).map().remove(k@) =~= old(self).map());
                None
            },
        }
    }
}


/// Whether `sep` occurs in `s` at index `i`.
pub open spec fn sep_at(s: Seq<char>, sep: Seq<char>, i: int) -> bool {
    0 <= i && i + sep.len() <= s.len() && s.subrange(i, i + sep.len()) == sep
}

/// The pieces of `s` from `start` on, where the current piece began at
/// `start` and the scan for the next separator stands at `i`.
pub open spec fn split_from(s: Seq<char>, sep: Seq<char>, start: int, i: int) -> Seq<Seq<char>>
    decreases s.len() - i,
{
    if sep.len() == 0 || i < 0 || i + sep.len() > s.len() {
        seq![s.subrange(start, s.len() as int)]
    } else if sep_at(s, sep, i) {
        seq![s.subrange(start, i)] + split_from(s, sep, i + sep.len(), i + sep.len())
    } else {
        split_from(s, sep, start, i + 1)
    }
}

/// The pieces of `s` between the non-overlapping occurrences of `sep`, found
/// from the left; an empty `sep` stands between any two chars and at both ends.
pub open spec fn split_text(s: Seq<char>, sep: Seq<char>) -> Seq<Seq<char>> {
    if sep.len() == 0 {
        seq![Seq::<char>::empty()] + s.map_values(|c: char| seq![c]) + seq![Seq::<char>::empty()]
    } else {
        split_from(s, sep, 0, 0)
    }
}

/// The tokens taken two at a time as key and value; an odd last token is left out.
pub open spec fn token_pairs(t: Seq<Seq<char>>) -> Seq<(Seq<char>, Seq<char>)> {
    Seq::new(t.len() / 2, |i: int| (t[2 * i], t[2 * i + 1]))
}

/// The keys and values of the pairs, in turn.
pub open spec fn pair_tokens(p: Seq<(Seq<char>, Seq<char>)>) -> Seq<Seq<char>> {
    Seq::new(2 * p.len(), |i: int| if i % 2 == 0 { p[i / 2].0 } else { p[i / 2].1 })
}

/// The tokens with `sep` between each two.
pub open spec fn join_text(t: Seq<Seq<char>>, sep: Seq<char>) -> Seq<char>
    decreases t.len(),
{
    if t.len() == 0 {
        Seq::empty()
    } else if t.len() == 1 {
        t[0]
    } else {
        t[0] + sep + join_text(t.drop_first(), sep)
    }
}

/// The mapping that a key-value text denotes.
pub open spec fn kv_text_map(s: Seq<char>, sep: Seq<char>) -> Map<Seq<char>, Seq<char>> {
    pairs_map(token_pairs(split_text(s, sep)))
}

/// Whether `sep` occurs in `cs` at index `i`.
fn sep_at_exec(cs: &Vec<char>, sep: &Vec<char>, i: usize) -> (r: bool)
    requires
        i + sep@.len() <= cs@.len(),
    ensures
        r == sep_at(cs@, sep@, i as int),
{
    let n = cs.len();
    let mut j: usize = 0;
    while j < sep.len()
        invariant
            n == cs@.len(),
            i + sep@.len() <= cs@.len(),
            j <= sep@.len(),
            forall|x: int| 0 <= x < j ==> cs@[i + x] == sep@[x],
        decreases sep@.len() - j,
    {
        if cs[i + j] != sep[j] {
            assert(cs@.subrange(i as int, i + sep@.len())[j as int] != sep@[j as int]);
            return false;
        }
        j = j + 1;
    }
    assert(cs@.subrange(i as int, i + sep@.len()) =~= sep@);
    true
}

/// Splits `input` at each occurrence of `sep`.
pub fn split_on(input: &str, sep: &str) -> (r: Vec<String>)
    ensures
        r@.map_values(|t: String| t@) == split_text(input@, sep@),
{
    let cs = chars_of(input);
    let sp = chars_of(sep);
    let n = cs.len();
    let mut r: Vec<String> = Vec::new();
    if sp.len() == 0 {
        r.push(String::new());
        let mut i: usize = 0;
        while i < n
            invariant
                i <= n == cs@.len(),
                r@.map_values(|t: String| t@) == seq![Seq::<char>::empty()] + cs@.take(
                    i as int,
                ).map_values(|c: char| seq![c]),
            decreases n - i,
        {
            let ghost before = r@;
            let piece = string_of(&cs, i, i + 1);
            assert(piece@ =~= seq![cs@[i as int]]);
            r.push(piece);
            proof {
                assert(r@.map_values(|t: String| t@) =~= before.map_values(|t: String| t@).push(
                    seq![cs@[i as int]],
                ));
                assert(cs@.subrange(i as int, i + 1) =~= seq![cs@[i as int]]);
                assert(cs@.take(i + 1).map_values(|c: char| seq![c]) =~= cs@.take(
                    i as int,
                ).map_values(|c: char| seq![c]).push(seq![cs@[i as int]]));
            }
            i = i + 1;
            assert(r@.map_values(|t: String| t@) =~= seq![Seq::<char>::empty()] + cs@.take(
                i as int,
            ).map_values(|c: char| seq![c]));
        }
        r.push(String::new());
        assert(cs@.take(n as int) =~= cs@);
        assert(r@.map_values(|t: String| t@) =~= split_text(input@, sep@));
        return r;
    }
    let m = sp.len();
    let mut start: usize = 0;
    let mut i: usize = 0;
    while m <= n && i <= n - m
        invariant
            n == cs@.len(),
            m == sp@.len() > 0,
            cs@ == input@,
            sp@ == sep@,
            start <= i,
            i <= n,
            r@.map_values(|t: String| t@) + split_from(cs@, sp@, start as int, i as int)
                == split_text(input@, sep@),
        decreases n - i,
    {
        if sep_at_exec(&cs, &sp, i) {
            let piece = string_of(&cs, start, i);
            proof {
                assert(split_from(cs@, sp@, start as int, i as int) == seq![
                    cs@.subrange(start as int, i as int),
                ] + split_from(cs@, sp@, (i + m) as int, (i + m) as int));
            }
            let ghost before = r@;
            r.push(piece);
            assert(r@.map_values(|t: String| t@) =~= before.map_values(|t: String| t@).push(
                cs@.subrange(start as int, i as int),
            ));
            i = i + m;
            start = i;
            assert(r@.map_values(|t: String| t@) + split_from(cs@, sp@, start as int, i as int)
                =~= split_text(input@, sep@));
        } else {
            i = i + 1;
        }
    }
    let ghost before = r@;
    r.push(string_of(&cs, start, n));
    assert(r@.map_values(|t: String| t@) =~= before.map_values(|t: String| t@).push(
        cs@.subrange(start as int, n as int),
    ));
    assert(r@.map_values(|t: String| t@) =~= split_text(input@, sep@));
    r
}

/// Reads a `key<sep>value<sep>key<sep>value...` text into a map; a key that
/// comes again overwrites, and an odd last token is dropped.
pub fn deserialise_kv(input: &str, sep: &str) -> (r: KvMap)
    ensures
        r.wf(),
        r.map() == kv_text_map(input@, sep@),
{
    let tokens = split_on(input, sep);
    let ghost t = tokens@.map_values(|x: String| x@);
    let mut map = KvMap::new();
    let mut i: usize = 0;
    let n = tokens.len();
    let half = n / 2;
    while i < half
        invariant
            n == tokens@.len(),
            half == n / 2,
            t == tokens@.map_values(|x: String| x@),
            i <= half,
            map.wf(),
            map.map() == pairs_map(token_pairs(t).take(i as int)),
        decreases half - i,
    {
        let k = tokens[2 * i].clone();
        let v = tokens[2 * i + 1].clone();
        map.insert(k, v);
        proof {
            assert(token_pairs(t).take(i + 1).drop_last() =~= token_pairs(t).take(i as int));
        }
        i = i + 1;
    }
    assert(token_pairs(t).take(half as int) =~= token_pairs(t));
    map
}

/// Writes a map as `key<sep>value<sep>key<sep>value...`, in entry order,
/// with no separator at the end.
pub fn serialise_kv(map: &KvMap, sep: &str) -> (r: String)
    ensures
        r@ == join_text(pair_tokens(map@), sep@),
{
    let mut out = String::new();
    let n = map.entries.len();
    let mut i: usize = n;
    // Built from the back: `out` holds the join of the tokens from pair `i` on.
    while i > 0
        invariant
            i <= n == map@.len(),
            out@ == join_text(pair_tokens(map@).skip(2 * i), sep@),
        decreases i,
    {
        i = i - 1;
        let ghost rest = pair_tokens(map@).skip(2 * i + 2);
        let mut piece = String::new();
        push_text(&mut piece, map.entries[i].0.as_str());
        push_text(&mut piece, sep);
        push_text(&mut piece, map.entries[i].1.as_str());
        if i + 1 < n {
            push_text(&mut piece, sep);
        }
        push_text(&mut piece, out.as_str());
        proof {
            let t = pair_tokens(map@).skip(2 * i);
            assert(t.len() == 2 * (n - i));
            assert(t[0] == map@[i as int].0);
            assert(t[1] == map@[i as int].1);
            assert(t.drop_first().drop_first() =~= rest);
            assert(t.drop_first()[0] == map@[i as int].1);
            assert(out@ == join_text(rest, sep@));
            if i + 1 < n {
                assert(t.drop_first().drop_first() == rest);
                assert(join_text(t.drop_first(), sep@) == map@[i as int].1 + sep@ + join_text(
                    rest,
                    sep@,
                ));
                assert(piece@ =~= map@[i as int].0 + sep@ + (map@[i as int].1 + sep@ + join_text(
                    rest,
                    sep@,
                )));
            } else {
                assert(rest.len() == 0);
                assert(t.drop_first().len() == 1);
                assert(join_text(t.drop_first(), sep@) == map@[i as int].1);
                assert(piece@ =~= map@[i as int].0 + sep@ + map@[i as int].1);
            }
            assert(piece@ == join_text(t, sep@));
        }
        out = piece;
    }
    assert(pair_tokens(map@).skip(0) =~= pair_tokens(map@));
    out
}


/// Whether no char of `sep` occurs in `t`.
pub open spec fn free_of(t: Seq<char>, sep: Seq<char>) -> bool {
    forall|j: int| 0 <= j < t.len() ==> !sep.contains(#[trigger] t[j])
}

/// Whether no key and no value of the pairs holds a char of `sep`.
pub open spec fn pairs_free_of(p: Seq<(Seq<char>, Seq<char>)>, sep: Seq<char>) -> bool {
    forall|i: int| 0 <= i < p.len() ==> free_of(#[trigger] p[i].0, sep) && free_of(p[i].1, sep)
}

/// The scan for a separator passes over a piece free of its chars and stops
/// right after it, at the separator or at the end.
proof fn lemma_scan_piece(s: Seq<char>, sep: Seq<char>, p: int, e: int, i: int)
    requires
        sep.len() > 0,
        0 <= p <= i <= e <= s.len(),
        free_of(s.subrange(p, e), sep),
        e == s.len() || sep_at(s, sep, e),
    ensures
        split_from(s, sep, p, i) == if e == s.len() {
            seq![s.subrange(p, s.len() as int)]
        } else {
            seq![s.subrange(p, e)] + split_from(s, sep, e + sep.len(), e + sep.len())
        },
    decreases e - i,
{
    if i + sep.len() > s.len() {
    } else if sep_at(s, sep, i) {
        if i < e {
            assert(s.subrange(i, i + sep.len())[0] == sep[0]);
            assert(s.subrange(p, e)[i - p] == s[i]);
            assert(sep.contains(sep[0]));
        }
    } else {
        lemma_scan_piece(s, sep, p, e, i + 1);
    }
}

proof fn lemma_split_join_from(s: Seq<char>, sep: Seq<char>, p: int, ts: Seq<Seq<char>>)
    requires
        sep.len() > 0,
        ts.len() > 0,
        forall|k: int| 0 <= k < ts.len() ==> free_of(#[trigger] ts[k], sep),
        0 <= p <= s.len(),
        s.subrange(p, s.len() as int) == join_text(ts, sep),
    ensures
        split_from(s, sep, p, p) == ts,
    decreases ts.len(),
{
    let a = ts[0];
    let e = p + a.len();
    if ts.len() == 1 {
        assert(s.subrange(p, e) =~= a);
        lemma_scan_piece(s, sep, p, e, p);
        assert(split_from(s, sep, p, p) =~= ts);
    } else {
        let rest = join_text(ts.drop_first(), sep);
        let u = s.subrange(p, s.len() as int);
        assert(u == a + sep + rest);
        assert(s.subrange(p, e) =~= u.subrange(0, a.len() as int));
        assert(u.subrange(0, a.len() as int) =~= a);
        assert(s.subrange(e, e + sep.len()) =~= u.subrange(a.len() as int, (a.len() + sep.len()) as int));
        assert(u.subrange(a.len() as int, (a.len() + sep.len()) as int) =~= sep);
        assert(s.subrange(e + sep.len(), s.len() as int) =~= u.subrange(
            (a.len() + sep.len()) as int,
            u.len() as int,
        ));
        assert(u.subrange((a.len() + sep.len()) as int, u.len() as int) =~= rest);
        lemma_scan_piece(s, sep, p, e, p);
        lemma_split_join_from(s, sep, e + sep.len(), ts.drop_first());
        assert(split_from(s, sep, p, p) =~= ts);
    }
}

/// Round trip of the key-value text: pairs whose keys and values hold no
/// char of a nonempty separator read back, from the text they are written
/// as, to the same mapping.
pub proof fn lemma_kv_round_trip(p: Seq<(Seq<char>, Seq<char>)>, sep: Seq<char>)
    requires
        sep.len() > 0,
        pairs_free_of(p, sep),
    ensures
        kv_text_map(join_text(pair_tokens(p), sep), sep) == pairs_map(p),
{
    let ts = pair_tokens(p);
    let s = join_text(ts, sep);
    if p.len() == 0 {
        assert(s =~= Seq::<char>::empty());
        assert(split_from(s, sep, 0, 0) == seq![s.subrange(0, 0)]);
        assert(token_pairs(split_text(s, sep)) =~= p);
    } else {
        assert forall|k: int| 0 <= k < ts.len() implies free_of(#[trigger] ts[k], sep) by {
            let j = k / 2;
            assert(0 <= j < p.len());
            assert(free_of(p[j].0, sep) && free_of(p[j].1, sep));
        }
        assert(s.subrange(0, s.len() as int) =~= s);
        lemma_split_join_from(s, sep, 0, ts);
        assert(token_pairs(ts) =~= p);
    }
}

} // verus!
