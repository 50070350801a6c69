use vstd::prelude::*;

verus! {

/// Base-`b` digits of `n`, most significant first, with no leading zero
/// (zero itself is the single digit `0`).
pub open spec fn digits(n: nat, b: nat) -> Seq<nat>
    decreases n,
    via digits_decreases
{
    if b < 2 || n < b {
        seq![n]
    } else {
        digits(n / b, b).push(n % b)
    }
}

#[via_fn]
proof fn digits_decreases(n: nat, b: nat) {
    if !(b < 2 || n < b) {
        assert(n / b < n) by (nonlinear_arith)
            requires
                b >= 2,
                n >= b,
        ;
    }
}

/// The number that a digit sequence (most significant first) denotes in base `b`.
pub open spec fn value(ds: Seq<nat>, b: nat) -> nat
    decreases ds.len(),
{
    if ds.len() == 0 {
        0
    } else {
        value(ds.drop_last(), b) * b + ds.last()
    }
}

/// The words of `ds`, joined by `sep`.
pub open spec fn render(ws: Seq<Seq<char>>, sep: Seq<char>, ds: Seq<nat>) -> Seq<char>
    decreases ds.len(),
{
    if ds.len() == 0 {
        Seq::empty()
    } else if ds.len() == 1 {
        ws[ds[0] as int]
    } else {
        ws[ds[0] as int] + sep + render(ws, sep, ds.drop_first())
    }
}

/// A vocabulary that can serve as the digits of a positional numeral:
/// at least two distinct, non-empty words; with no separator every word is
/// one character long, and otherwise no word holds the separator's first
/// character, so that a word boundary is never in doubt.
pub open spec fn valid_vocabulary(ws: Seq<Seq<char>>, sep: Seq<char>) -> bool {
    &&& 2 <= ws.len()
    &&& forall|i: int| 0 <= i < ws.len() ==> #[trigger] ws[i].len() > 0
    &&& forall|i: int, j: int| 0 <= i < ws.len() && 0 <= j < ws.len() && i != j ==> ws[i] != ws[j]
    &&& sep.len() == 0 ==> forall|i: int| 0 <= i < ws.len() ==> #[trigger] ws[i].len() == 1
    &&& sep.len() > 0 ==> forall|i: int, k: int|
        0 <= i < ws.len() && 0 <= k < ws[i].len() ==> #[trigger] ws[i][k] != sep[0]
}

/// Word `d` stands in `s` at `pos`, followed by the end of `s` or by the separator.
pub open spec fn word_at(ws: Seq<Seq<char>>, sep: Seq<char>, s: Seq<char>, pos: int, d: int) -> bool {
    let end = pos + ws[d].len();
    &&& 0 <= d < ws.len()
    &&& 0 <= pos
    &&& end <= s.len()
    &&& s.subrange(pos, end) == ws[d]
    &&& end == s.len() || (end + sep.len() <= s.len() && s.subrange(end, end + sep.len()) == sep)
}

/// Maps identifiers to public slugs and back: an identifier is written in
/// base `words.len()`, each digit spelled by its word, the words joined by
/// `separator`.
pub struct Codec {
    words: Vec<String>,
    separator: String,
    word_chars: Vec<Vec<char>>,
    sep_chars: Vec<char>,
}

impl Codec {
    pub closed spec fn vocabulary(&self) -> Seq<Seq<char>> {
        self.words@.map_values(|w: String| w@)
    }

    pub closed spec fn sep(&self) -> Seq<char> {
        self.separator@
    }

    pub open spec fn base(&self) -> nat {
        self.vocabulary().len()
    }

    pub closed spec fn wf(&self) -> bool {
        &&& valid_vocabulary(self.vocabulary(), self.sep())
        &&& self.word_chars.len() == self.words.len()
        &&& forall|i: int| 0 <= i < self.words.len() ==> #[trigger] self.word_chars[i]@ == self.words[i]@
        &&& self.sep_chars@ == self.separator@
    }

    /// The slug of identifier `id`.
    pub open spec fn slug_of(&self, id: nat) -> Seq<char> {
        render(self.vocabulary(), self.sep(), digits(id, self.base()))
    }

    /// The identifier whose slug is `s`, if there is one.
    pub open spec fn decoded(&self, s: Seq<char>) -> Option<u64> {
        if exists|i: u64| self.slug_of(i as nat) == s {
            Some(choose|i: u64| self.slug_of(i as nat) == s)
        } else {
            None
        }
    }

    pub fn new(words: Vec<String>, separator: String) -> (r: Option<Codec>)
        ensures
            r is Some <==> valid_vocabulary(words@.map_values(|w: String| w@), separator@),
            r matches Some(c) ==> c.wf() && c.vocabulary() == words@.map_values(|w: String| w@)
                && c.sep() == separator@,
    {
        let ghost ws = words@.map_values(|w: String| w@);
        let n = words.len();
        if n < 2 {
            assert(!valid_vocabulary(ws, separator@));
            return None;
        }
        let sep_chars = chars_of(separator.as_str());
        let mut word_chars: Vec<Vec<char>> = Vec::new();
        let mut i: usize = 0;
        while i < n
            invariant
                n == words.len(),
                n >= 2,
                ws.len() == n,
                ws == words@.map_values(|w: String| w@),
                sep_chars@ == separator@,
                i <= n,
                word_chars.len() == i,
                forall|k: int| 0 <= k < i ==> #[trigger] word_chars[k]@ == ws[k],
                forall|k: int| 0 <= k < i ==> #[trigger] ws[k].len() > 0,
                separator@.len() == 0 ==> forall|k: int| 0 <= k < i ==> #[trigger] ws[k].len() == 1,
                separator@.len() > 0 ==> forall|k: int, m: int|
                    0 <= k < i && 0 <= m < ws[k].len() ==> #[trigger] ws[k][m] != separator@[0],
                forall|k: int, m: int| 0 <= k < i && 0 <= m < i && k != m ==> ws[k] != ws[m],
            decreases n - i,
        {
            let w = chars_of(words[i].as_str());
            let len = w.len();
            assert(ws[i as int] == w@);
            if len == 0 {
                assert(!valid_vocabulary(ws, separator@));
                return None;
            }
            if sep_chars.len() == 0 && len != 1 {
                assert(!valid_vocabulary(ws, separator@));
                return None;
            }
            if sep_chars.len() > 0 {
                let first = sep_chars[0];
                assert(first == separator@[0]);
                let mut m: usize = 0;
                while m < len
                    invariant
                        len == w.len(),
                        m <= len,
                        ws[i as int] == w@,
                        first == separator@[0],
                        ws == words@.map_values(|w: String| w@),
                        i < n,
                        ws.len() == n,
                        separator@.len() > 0,
                        forall|q: int| 0 <= q < m ==> w@[q] != first,
                    decreases len - m,
                {
                    if w[m] == first {
                        assert(ws[i as int][m as int] == separator@[0]);
                        assert(!valid_vocabulary(ws, separator@));
                        return None;
                    }
                    m = m + 1;
                }
            }
            let mut j: usize = 0;
            while j < i
                invariant
                    i < n,
                    j <= i,
                    word_chars.len() == i,
                    forall|k: int| 0 <= k < i ==> #[trigger] word_chars[k]@ == ws[k],
                    forall|k: int| 0 <= k < j ==> ws[k] != w@,
                    ws[i as int] == w@,
                    ws.len() == n,
                    ws == words@.map_values(|w: String| w@),
                decreases i - j,
            {
                if same_chars(&word_chars[j], &w) {
                    assert(ws[j as int] == ws[i as int]);
                    assert(!valid_vocabulary(ws, separator@));
                    return None;
                }
                j = j + 1;
            }
            word_chars.push(w);
            i = i + 1;
        }
        Some(Codec { words, separator, word_chars, sep_chars })
    }

    /// A compact strategy: each character of `alphabet` is one digit, with no separator.
    pub fn compact(alphabet: &str) -> (r: Option<Codec>)
        ensures
            r is Some <==> valid_vocabulary(alphabet@.map_values(|c: char| seq![c]), Seq::empty()),
            r matches Some(c) ==> c.wf() && c.vocabulary() == alphabet@.map_values(|c: char| seq![c])
                && c.sep() == Seq::<char>::empty(),
    {
        let n = alphabet.unicode_len();
        let mut words: Vec<String> = Vec::new();
        let mut i: usize = 0;
        while i < n
            invariant
                n == alphabet@.len(),
                i <= n,
                words@.map_values(|w: String| w@) == alphabet@.subrange(0, i as int).map_values(
                    |c: char| seq![c],
                ),
            decreases n - i,
        {
            let piece = alphabet.substring_char(i, i + 1);
            let w = String::from_str(piece);
            let ghost before = words@;
            assert(w@ =~= seq![alphabet@[i as int]]);
            words.push(w);
            assert(words@ == before.push(w));
            assert(before.push(w).map_values(|w: String| w@) =~= before.map_values(|w: String| w@).push(w@));
            assert(alphabet@.subrange(0, i + 1).map_values(|c: char| seq![c]) =~= alphabet@.subrange(
                0,
                i as int,
            ).map_values(|c: char| seq![c]).push(seq![alphabet@[i as int]]));
            assert(words@.map_values(|w: String| w@) =~= alphabet@.subrange(0, i + 1).map_values(
                |c: char| seq![c],
            )) by {
                assert(before.map_values(|w: String| w@) =~= alphabet@.subrange(0, i as int).map_values(
                    |c: char| seq![c],
                ));
            }
            i = i + 1;
        }
        assert(alphabet@.subrange(0, n as int) =~= alphabet@);
        let sep = String::new();
        Codec::new(words, sep)
    }

    /// A mnemonic strategy: each word of `words` is one digit, the words joined by `-`.
    pub fn mnemonic(words: Vec<String>) -> (r: Option<Codec>)
        ensures
            r is Some <==> valid_vocabulary(words@.map_values(|w: String| w@), seq!['-']),
            r matches Some(c) ==> c.wf() && c.vocabulary() == words@.map_values(|w: String| w@)
                && c.sep() == seq!['-'],
    {
        let sep = String::from_str("-");
        proof {
            reveal_strlit("-");
            assert(sep@ =~= seq!['-']);
        }
        Codec::new(words, sep)
    }

    /// The slug of `id`.
    pub fn encode(&self, id: u64) -> (r: String)
        requires
            self.wf(),
        ensures
            r@ == self.slug_of(id as nat),
        decreases id,
    {
        proof {
            lemma_digits_props(id as nat, self.base());
        }
        let b = self.words.len() as u64;
        if id < b {
            let mut s = String::new();
            s.append(self.words[id as usize].as_str());
            proof {
                assert(digits(id as nat, self.base()) =~= seq![id as nat]);
                assert(s@ =~= self.vocabulary()[id as int]);
            }
            s
        } else {
            let mut s = self.encode(id / b);
            s.append(self.separator.as_str());
            s.append(self.words[(id % b) as usize].as_str());
            proof {
                let ds = digits((id / b) as nat, self.base());
                lemma_digits_props((id / b) as nat, self.base());
                lemma_render_push(self.vocabulary(), self.sep(), ds, (id % b) as nat);
            }
            s
        }
    }

    /// The identifier whose slug is `s`; `None` where `s` is the slug of no identifier.
    pub fn decode(&self, s: &str) -> (r: Option<u64>)
        requires
            self.wf(),
        ensures
            r == self.decoded(s@),
    {
        let parsed = self.parse(s);
        match parsed {
            None => {
                proof {
                    if exists|i: u64| self.slug_of(i as nat) == s@ {
                        let i = choose|i: u64| self.slug_of(i as nat) == s@;
                        assert(parsed == Some(i));
                    }
                }
                None
            },
            Some(id) => {
                let back = self.encode(id);
                let t = String::from_str(s);
                if back == t {
                    proof {
                        let j = choose|j: u64| self.slug_of(j as nat) == s@;
                        lemma_slug_injective(self, id as nat, j as nat);
                    }
                    Some(id)
                } else {
                    proof {
                        if exists|i: u64| self.slug_of(i as nat) == s@ {
                            let i = choose|i: u64| self.slug_of(i as nat) == s@;
                            assert(parsed == Some(i));
                        }
                    }
                    None
                }
            },
        }
    }

    /// Which word stands at `pos` of `s`, followed by the end or the separator.
    fn word_index_at(&self, s: &Vec<char>, pos: usize) -> (r: Option<usize>)
        requires
            self.wf(),
        ensures
            r matches Some(d) ==> word_at(self.vocabulary(), self.sep(), s@, pos as int, d as int),
            r is None ==> forall|d: int| !word_at(self.vocabulary(), self.sep(), s@, pos as int, d),
    {
        let n = self.word_chars.len();
        let mut d: usize = 0;
        while d < n
            invariant
                self.wf(),
                n == self.words.len(),
                d <= n,
                forall|e: int| 0 <= e < d ==> !word_at(self.vocabulary(), self.sep(), s@, pos as int, e),
            decreases n - d,
        {
            let w = &self.word_chars[d];
            assert(w@ == self.vocabulary()[d as int]);
            if occurs_at(s, pos, w) {
                let end = pos + w.len();
                if end == s.len() {
                    return Some(d);
                }
                if occurs_at(s, end, &self.sep_chars) {
                    return Some(d);
                }
            }
            d = d + 1;
        }
        None
    }

    /// Reads `s` as words joined by the separator and computes the number
    /// they spell; on a slug of an identifier this is that identifier.
    fn parse(&self, s: &str) -> (r: Option<u64>)
        requires
            self.wf(),
        ensures
            forall|i: u64| self.slug_of(i as nat) == s@ ==> r == Some(i),
    {
        let cs = chars_of(s);
        let n = cs.len();
        let b = self.words.len() as u64;
        let ghost ws = self.vocabulary();
        let ghost sep = self.sep();
        let ghost found = exists|i: u64| self.slug_of(i as nat) == s@;
        let ghost target: u64 = choose|i: u64| self.slug_of(i as nat) == s@;
        let ghost ds = digits(target as nat, b as nat);
        proof {
            lemma_digits_props(target as nat, b as nat);
            assert(cs@.subrange(0, n as int) =~= cs@);
            assert(ds.subrange(0, ds.len() as int) =~= ds);
            assert(ds.subrange(0, 0) =~= Seq::<nat>::empty());
            assert forall|i: u64| self.slug_of(i as nat) == s@ implies found && i == target by {
                lemma_slug_injective(self, i as nat, target as nat);
            }
        }
        let mut pos: usize = 0;
        let mut acc: u64 = 0;
        let ghost mut k: int = 0;
        loop
            invariant
                self.wf(),
                b as nat == self.base(),
                ws == self.vocabulary(),
                sep == self.sep(),
                n == cs@.len(),
                cs@ == s@,
                pos <= n,
                ds == digits(target as nat, b as nat),
                found ==> self.slug_of(target as nat) == s@,
                forall|i: u64| self.slug_of(i as nat) == s@ ==> found && i == target,
                found ==> 0 <= k < ds.len(),
                found ==> cs@.subrange(pos as int, n as int) == render(ws, sep, ds.subrange(k, ds.len() as int)),
                found ==> acc as nat == value(ds.subrange(0, k), b as nat),
                forall|q: int| 0 <= q < ds.len() ==> #[trigger] ds[q] < b,
                value(ds, b as nat) == target,
            decreases n - pos,
        {
            proof {
                if found {
                    lemma_render_step(ws, sep, ds, k);
                    lemma_word_at_render(ws, sep, cs@, pos as int, ds, k);
                }
            }
            let m = self.word_index_at(&cs, pos);
            let d = match m {
                None => {
                    return None;
                },
                Some(d) => d,
            };
            proof {
                if found {
                    lemma_word_unique(ws, sep, cs@, pos as int, d as int, ds[k] as int);
                    lemma_value_prefix(ds, b as nat, k + 1);
                    let p = ds.subrange(0, k + 1);
                    assert(p.drop_last() =~= ds.subrange(0, k));
                    assert(p.last() == ds[k]);
                    assert(value(p, b as nat) == value(ds.subrange(0, k), b as nat) * (b as nat) + ds[k]);
                }
            }
            let step = match acc.checked_mul(b) {
                None => {
                    return None;
                },
                Some(p) => p,
            };
            acc = match step.checked_add(d as u64) {
                None => {
                    return None;
                },
                Some(v) => v,
            };
            let end = pos + self.word_chars[d].len();
            if end == n {
                proof {
                    if found {
                        if k + 1 < ds.len() {
                            lemma_render_longer(ws, sep, ds, k);
                        }
                        assert(ds.subrange(0, k + 1) =~= ds);
                    }
                }
                return Some(acc);
            }
            pos = end + self.sep_chars.len();
            proof {
                if found {
                    if k + 1 == ds.len() {
                        assert(render(ws, sep, ds.subrange(k, ds.len() as int)) =~= ws[ds[k] as int]);
                    }
                    let rest = render(ws, sep, ds.subrange(k + 1, ds.len() as int));
                    assert(cs@.subrange(pos as int, n as int) =~= rest) by {
                        let old_pos = end - ws[ds[k] as int].len();
                        assert(cs@.subrange(old_pos, n as int) == ws[ds[k] as int] + sep + rest);
                        assert(cs@.subrange(pos as int, n as int) =~= cs@.subrange(old_pos, n as int).subrange(
                            (ws[ds[k] as int].len() + sep.len()) as int,
                            n - old_pos,
                        ));
                    }
                    k = k + 1;
                }
            }
        }
    }
}

/// The characters of `s`.
pub fn chars_of(s: &str) -> (r: Vec<char>)
    ensures
        r@ == s@,
{
    let n = s.unicode_len();
    let mut r: Vec<char> = Vec::new();
    let mut i: usize = 0;
    while i < n
        invariant
            n == s@.len(),
            i <= n,
            r@ == s@.subrange(0, i as int),
        decreases n - i,
    {
        r.push(s.get_char(i));
        i = i + 1;
        assert(r@ =~= s@.subrange(0, i as int));
    }
    assert(s@.subrange(0, n as int) =~= s@);
    r
}

/// Whether `a` and `b` hold the same characters.
pub fn same_chars(a: &Vec<char>, b: &Vec<char>) -> (r: bool)
    ensures
        r == (a@ == b@),
{
    if a.len() != b.len() {
        return false;
    }
    let mut i: usize = 0;
    while i < a.len()
        invariant
            a.len() == b.len(),
            i <= a.len(),
            forall|k: int| 0 <= k < i ==> a@[k] == b@[k],
        decreases a.len() - i,
    {
        if a[i] != b[i] {
            return false;
        }
        i = i + 1;
    }
    assert(a@ =~= b@);
    true
}

/// Whether `needle` stands in `hay` at `pos`.
pub fn occurs_at(hay: &Vec<char>, pos: usize, needle: &Vec<char>) -> (r: bool)
    ensures
        r == (pos + needle.len() <= hay.len() && hay@.subrange(pos as int, pos + needle.len()) == needle@),
{
    if pos > hay.len() || needle.len() > hay.len() - pos {
        return false;
    }
    let mut i: usize = 0;
    while i < needle.len()
        invariant
            pos + needle.len() <= hay.len(),
            i <= needle.len(),
            forall|k: int| 0 <= k < i ==> hay@[pos + k] == needle@[k],
        decreases needle.len() - i,
    {
        if hay[pos + i] != needle[i] {
            assert(hay@.subrange(pos as int, pos + needle.len())[i as int] != needle@[i as int]);
            return false;
        }
        i = i + 1;
    }
    assert(hay@.subrange(pos as int, pos + needle.len()) =~= needle@);
    true
}

/// The digits of `n` are digits of base `b`, denote `n`, and are never empty.
pub proof fn lemma_digits_props(n: nat, b: nat)
    requires
        b >= 2,
    ensures
        digits(n, b).len() >= 1,
        forall|q: int| 0 <= q < digits(n, b).len() ==> #[trigger] digits(n, b)[q] < b,
        value(digits(n, b), b) == n,
    decreases n,
{
    if n < b {
        assert(seq![n].drop_last() =~= Seq::<nat>::empty());
        assert(value(Seq::<nat>::empty(), b) == 0);
        assert(value(seq![n], b) == 0 * b + n);
    } else {
        assert(n / b < n) by (nonlinear_arith)
            requires
                b >= 2,
                n >= b,
        ;
        lemma_digits_props(n / b, b);
        let ds = digits(n / b, b);
        assert(ds.push(n % b).drop_last() =~= ds);
        assert(value(ds.push(n % b), b) == value(ds, b) * b + n % b);
        assert(n == (n / b) * b + n % b) by (nonlinear_arith)
            requires
                b >= 2,
        ;
        assert(n % b < b) by (nonlinear_arith)
            requires
                b >= 2,
        ;
    }
}

/// Appending a digit appends the separator and its word.
pub proof fn lemma_render_push(ws: Seq<Seq<char>>, sep: Seq<char>, ds: Seq<nat>, d: nat)
    requires
        ds.len() >= 1,
    ensures
        render(ws, sep, ds.push(d)) == render(ws, sep, ds) + sep + ws[d as int],
    decreases ds.len(),
{
    if ds.len() == 1 {
        assert(ds.push(d).drop_first() =~= seq![d]);
        assert(render(ws, sep, seq![d]) == ws[d as int]);
        assert(ds.push(d)[0] == ds[0]);
        assert(render(ws, sep, ds) == ws[ds[0] as int]);
    } else {
        assert(ds.push(d)[0] == ds[0]);
        lemma_render_push(ws, sep, ds.drop_first(), d);
        assert(ds.push(d).drop_first() =~= ds.drop_first().push(d));
        assert(render(ws, sep, ds.push(d)) =~= render(ws, sep, ds) + sep + ws[d as int]);
    }
}

/// The rendering of a suffix of digits begins with the word of its first digit.
proof fn lemma_render_step(ws: Seq<Seq<char>>, sep: Seq<char>, ds: Seq<nat>, k: int)
    requires
        0 <= k < ds.len(),
    ensures
        k + 1 == ds.len() ==> render(ws, sep, ds.subrange(k, ds.len() as int)) == ws[ds[k] as int],
        k + 1 < ds.len() ==> render(ws, sep, ds.subrange(k, ds.len() as int)) == ws[ds[k] as int] + sep
            + render(ws, sep, ds.subrange(k + 1, ds.len() as int)),
{
    let t = ds.subrange(k, ds.len() as int);
    assert(t.drop_first() =~= ds.subrange(k + 1, ds.len() as int));
    assert(t[0] == ds[k]);
}

/// Past its first word, a rendering of two or more digits goes on.
proof fn lemma_render_longer(ws: Seq<Seq<char>>, sep: Seq<char>, ds: Seq<nat>, k: int)
    requires
        0 <= k,
        k + 1 < ds.len(),
        forall|q: int| 0 <= q < ds.len() ==> #[trigger] ds[q] < ws.len(),
        forall|i: int| 0 <= i < ws.len() ==> #[trigger] ws[i].len() > 0,
    ensures
        render(ws, sep, ds.subrange(k, ds.len() as int)).len() > ws[ds[k] as int].len(),
{
    lemma_render_step(ws, sep, ds, k);
    let t = ds.subrange(k + 1, ds.len() as int);
    assert(t[0] == ds[k + 1]);
    assert(ws[ds[k + 1] as int].len() > 0);
    if t.len() > 1 {
        assert(render(ws, sep, t).len() >= ws[t[0] as int].len());
    }
}

/// In a rendering, the word of the current digit stands at the current position.
proof fn lemma_word_at_render(ws: Seq<Seq<char>>, sep: Seq<char>, s: Seq<char>, pos: int, ds: Seq<nat>, k: int)
    requires
        0 <= pos <= s.len(),
        0 <= k < ds.len(),
        forall|q: int| 0 <= q < ds.len() ==> #[trigger] ds[q] < ws.len(),
        s.subrange(pos, s.len() as int) == render(ws, sep, ds.subrange(k, ds.len() as int)),
        k + 1 == ds.len() ==> render(ws, sep, ds.subrange(k, ds.len() as int)) == ws[ds[k] as int],
        k + 1 < ds.len() ==> render(ws, sep, ds.subrange(k, ds.len() as int)) == ws[ds[k] as int] + sep
            + render(ws, sep, ds.subrange(k + 1, ds.len() as int)),
    ensures
        word_at(ws, sep, s, pos, ds[k] as int),
{
    let w = ws[ds[k] as int];
    let tail = s.subrange(pos, s.len() as int);
    let end = pos + w.len();
    assert(tail.len() == s.len() - pos);
    assert(tail.subrange(0, w.len() as int) =~= w);
    assert(s.subrange(pos, end) =~= tail.subrange(0, w.len() as int));
    if k + 1 < ds.len() {
        assert(tail.subrange(w.len() as int, (w.len() + sep.len()) as int) =~= sep);
    }
    if k + 1 < ds.len() {
        assert(s.subrange(end, end + sep.len()) =~= tail.subrange(w.len() as int, (w.len() + sep.len()) as int));
    }
}

/// At most one word stands at a position, followed by the end or the separator.
pub proof fn lemma_word_unique(ws: Seq<Seq<char>>, sep: Seq<char>, s: Seq<char>, pos: int, d1: int, d2: int)
    requires
        valid_vocabulary(ws, sep),
        word_at(ws, sep, s, pos, d1),
        word_at(ws, sep, s, pos, d2),
    ensures
        d1 == d2,
{
    let w1 = ws[d1];
    let w2 = ws[d2];
    if w1.len() == w2.len() {
        assert(w1 == w2);
    } else if sep.len() == 0 {
        assert(w1.len() == 1 && w2.len() == 1);
    } else {
        if w1.len() < w2.len() {
            let e = pos + w1.len();
            assert(w2[w1.len() as int] == s[e]);
            assert(s.subrange(e, e + sep.len())[0] == sep[0]);
        } else {
            let e = pos + w2.len();
            assert(w1[w2.len() as int] == s[e]);
            assert(s.subrange(e, e + sep.len())[0] == sep[0]);
        }
    }
}

/// A prefix of digits never denotes more than the whole.
proof fn lemma_value_prefix(ds: Seq<nat>, b: nat, k: int)
    requires
        0 <= k <= ds.len(),
        b >= 1,
    ensures
        value(ds.subrange(0, k), b) <= value(ds, b),
    decreases ds.len() - k,
{
    if k == ds.len() {
        assert(ds.subrange(0, k) =~= ds);
    } else {
        lemma_value_prefix(ds, b, k + 1);
        let p = ds.subrange(0, k + 1);
        assert(p.drop_last() =~= ds.subrange(0, k));
        let v = value(ds.subrange(0, k), b);
        assert(v * b + p.last() >= v) by (nonlinear_arith)
            requires
                b >= 1,
        ;
    }
}

/// Two digit sequences with the same rendering are the same.
proof fn lemma_render_injective(ws: Seq<Seq<char>>, sep: Seq<char>, d1: Seq<nat>, d2: Seq<nat>)
    requires
        valid_vocabulary(ws, sep),
        d1.len() >= 1,
        d2.len() >= 1,
        forall|q: int| 0 <= q < d1.len() ==> #[trigger] d1[q] < ws.len(),
        forall|q: int| 0 <= q < d2.len() ==> #[trigger] d2[q] < ws.len(),
        render(ws, sep, d1) == render(ws, sep, d2),
    ensures
        d1 == d2,
    decreases d1.len(),
{
    let s = render(ws, sep, d1);
    lemma_render_step(ws, sep, d1, 0);
    lemma_render_step(ws, sep, d2, 0);
    assert(d1.subrange(0, d1.len() as int) =~= d1);
    assert(d2.subrange(0, d2.len() as int) =~= d2);
    assert(s.subrange(0, s.len() as int) =~= s);
    lemma_word_at_render(ws, sep, s, 0, d1, 0);
    lemma_word_at_render(ws, sep, s, 0, d2, 0);
    lemma_word_unique(ws, sep, s, 0, d1[0] as int, d2[0] as int);
    let w = ws[d1[0] as int];
    if d1.len() > 1 && d2.len() == 1 {
        lemma_render_longer(ws, sep, d1, 0);
    } else if d1.len() == 1 && d2.len() > 1 {
        lemma_render_longer(ws, sep, d2, 0);
    } else if d1.len() > 1 {
        let r1 = render(ws, sep, d1.subrange(1, d1.len() as int));
        let r2 = render(ws, sep, d2.subrange(1, d2.len() as int));
        assert(r1 =~= s.subrange((w.len() + sep.len()) as int, s.len() as int));
        assert(r2 =~= s.subrange((w.len() + sep.len()) as int, s.len() as int));
        lemma_render_injective(ws, sep, d1.subrange(1, d1.len() as int), d2.subrange(1, d2.len() as int));
        assert(d1 =~= seq![d1[0]] + d1.subrange(1, d1.len() as int));
        assert(d2 =~= seq![d2[0]] + d2.subrange(1, d2.len() as int));
    } else {
        assert(d1 =~= seq![d1[0]]);
        assert(d2 =~= seq![d2[0]]);
    }
}

/// Distinct identifiers have distinct slugs.
pub proof fn lemma_slug_injective(c: &Codec, i: nat, j: nat)
    requires
        c.wf(),
        c.slug_of(i) == c.slug_of(j),
    ensures
        i == j,
{
    lemma_digits_props(i, c.base());
    lemma_digits_props(j, c.base());
    lemma_render_injective(c.vocabulary(), c.sep(), digits(i, c.base()), digits(j, c.base()));
}

/// Decoding the slug of an identifier gives that identifier back.
pub proof fn law_round_trip(c: &Codec, i: u64)
    requires
        c.wf(),
    ensures
        c.decoded(c.slug_of(i as nat)) == Some(i),
{
    let s = c.slug_of(i as nat);
    assert(exists|k: u64| c.slug_of(k as nat) == s);
    let j = choose|k: u64| c.slug_of(k as nat) == s;
    lemma_slug_injective(c, i as nat, j as nat);
}

/// Distinct identifiers are encoded as distinct slugs.
pub proof fn law_injective(c: &Codec, i: u64, j: u64)
    requires
        c.wf(),
        i != j,
    ensures
        c.slug_of(i as nat) != c.slug_of(j as nat),
{
    if c.slug_of(i as nat) == c.slug_of(j as nat) {
        lemma_slug_injective(c, i as nat, j as nat);
    }
}

/// The empty string is no slug: decoding it finds no identifier.
pub proof fn law_empty_is_no_slug(c: &Codec)
    requires
        c.wf(),
    ensures
        c.decoded(Seq::empty()) is None,
{
    if exists|i: u64| c.slug_of(i as nat) == Seq::<char>::empty() {
        let i = choose|i: u64| c.slug_of(i as nat) == Seq::<char>::empty();
        let ds = digits(i as nat, c.base());
        lemma_digits_props(i as nat, c.base());
        lemma_render_step(c.vocabulary(), c.sep(), ds, 0);
        assert(ds.subrange(0, ds.len() as int) =~= ds);
        assert(c.vocabulary()[ds[0] as int].len() > 0);
        if ds.len() > 1 {
            lemma_render_longer(c.vocabulary(), c.sep(), ds, 0);
        }
    }
}

} // verus!
