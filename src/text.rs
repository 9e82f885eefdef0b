use rand::distributions::DistString;
use vstd::prelude::*;
use vstd::string::*;

verus! {

/// The characters that random identifiers and secrets are drawn from: ASCII letters and digits.
pub open spec fn is_token_char(c: char) -> bool {
    ('A' <= c && c <= 'Z') || ('a' <= c && c <= 'z') || ('0' <= c && c <= '9')
}

/// Holds of a string made of `len` characters of `is_token_char`.
pub open spec fn is_token(s: Seq<char>, len: nat) -> bool {
    &&& s.len() == len
    &&& forall|i: int| 0 <= i < s.len() ==> is_token_char(#[trigger] s[i])
}

/// Relies on rand's `Alphanumeric` distribution through `DistString::sample_string`: it
/// draws `len` characters from `A-Z`, `a-z` and `0-9` with the thread-local generator.
#[verifier::external_body]
pub(crate) fn random_token(len: usize) -> (r: String)
    ensures
        is_token(r@, len as nat),
{
    rand::distributions::Alphanumeric.sample_string(&mut rand::thread_rng(), len)
}

/// Holds of an identifier: at least `min` characters, all of `is_token_char`.
pub open spec fn is_id(s: Seq<char>, min: nat) -> bool {
    &&& s.len() >= min
    &&& forall|i: int| 0 <= i < s.len() ==> is_token_char(#[trigger] s[i])
}

/// Some string of `ids` holds the characters of `s`.
pub open spec fn listed(ids: Seq<String>, s: Seq<char>) -> bool {
    exists|k: int| 0 <= k < ids.len() && (#[trigger] ids[k])@ == s
}

/// The Unicode lowercase mapping of a string, as `str::to_lowercase` computes it.
pub uninterp spec fn lower_of(s: Seq<char>) -> Seq<char>;

/// Relies on `str::to_lowercase`: the result is the lowercase mapping of the characters of `s`,
/// and depends on them alone.
#[verifier::external_body]
pub(crate) fn lowercase(s: &str) -> (r: String)
    ensures
        r@ == lower_of(s@),
{
    s.to_lowercase()
}

/// The scan behind `words`: the pieces already closed, and the piece being read.
pub open spec fn word_scan(s: Seq<char>) -> (Seq<Seq<char>>, Seq<char>)
    decreases s.len(),
{
    if s.len() == 0 {
        (Seq::empty(), Seq::empty())
    } else {
        let (done, cur) = word_scan(s.drop_last());
        if s.last() == ' ' {
            if cur.len() == 0 {
                (done, cur)
            } else {
                (done.push(cur), Seq::empty())
            }
        } else {
            (done, cur.push(s.last()))
        }
    }
}

/// The pieces of `s` between single spaces, in order, with empty pieces left out.
pub open spec fn words(s: Seq<char>) -> Seq<Seq<char>> {
    let (done, cur) = word_scan(s);
    if cur.len() == 0 {
        done
    } else {
        done.push(cur)
    }
}

/// Every piece that the scan produces is a part of `s` and so holds no comma when `s` holds none.
pub proof fn lemma_word_scan_no_comma(s: Seq<char>)
    requires
        !s.contains(','),
    ensures
        forall|k: int|
            0 <= k < word_scan(s).0.len() ==> !(#[trigger] word_scan(s).0[k]).contains(','),
        !word_scan(s).1.contains(','),
    decreases s.len(),
{
    if s.len() > 0 {
        assert(!s.drop_last().contains(',')) by {
            if s.drop_last().contains(',') {
                let k = choose|k: int| 0 <= k < s.drop_last().len() && s.drop_last()[k] == ',';
                assert(s[k] == ',');
            }
        }
        lemma_word_scan_no_comma(s.drop_last());
        let (done, cur) = word_scan(s.drop_last());
        if s.last() != ' ' {
            assert(s.last() != ',') by {
                assert(s[s.len() - 1] == s.last());
            }
            assert(!cur.push(s.last()).contains(',')) by {
                if cur.push(s.last()).contains(',') {
                    let k = choose|k: int| 0 <= k < cur.push(s.last()).len() && cur.push(s.last())[k] == ',';
                    if k < cur.len() {
                        assert(cur[k] == ',');
                    }
                }
            }
        } else if cur.len() > 0 {
            assert forall|k: int| 0 <= k < done.push(cur).len() implies !(
            #[trigger] done.push(cur)[k]).contains(',') by {
                if k < done.len() {
                    assert(done.push(cur)[k] == done[k]);
                }
            }
        }
    }
}

/// The words of a text without a comma hold no comma.
pub proof fn lemma_words_no_comma(s: Seq<char>)
    requires
        !s.contains(','),
    ensures
        forall|k: int| 0 <= k < words(s).len() ==> !(#[trigger] words(s)[k]).contains(','),
{
    lemma_word_scan_no_comma(s);
    let (done, cur) = word_scan(s);
    if cur.len() > 0 {
        assert forall|k: int| 0 <= k < words(s).len() implies !(#[trigger] words(s)[k]).contains(',') by {
            if k < done.len() {
                assert(words(s)[k] == done[k]);
            }
        }
    }
}

/// Whether two strings hold the same characters.
pub fn same_text(a: &str, b: &str) -> (r: bool)
    ensures
        r == (a@ == b@),
{
    let n = a.unicode_len();
    if n != b.unicode_len() {
        return false;
    }
    let mut i: usize = 0;
    while i < n
        invariant
            n == a@.len(),
            n == b@.len(),
            i <= n,
            forall|k: int| 0 <= k < i ==> a@[k] == b@[k],
        decreases n - i,
    {
        if a.get_char(i) != b.get_char(i) {
            return false;
        }
        i = i + 1;
    }
    assert(a@ =~= b@);
    true
}

/// Whether some string of `ids` holds the characters of `s`.
pub fn is_listed(ids: &Vec<String>, s: &str) -> (r: bool)
    ensures
        r == listed(ids@, s@),
{
    let mut k: usize = 0;
    while k < ids.len()
        invariant
            k <= ids@.len(),
            forall|j: int| 0 <= j < k ==> (#[trigger] ids@[j])@ != s@,
        decreases ids@.len() - k,
    {
        if same_text(ids[k].as_str(), s) {
            assert(ids@[k as int]@ == s@);
            return true;
        }
        k = k + 1;
    }
    false
}

/// A random identifier of `len` characters that no string of `ids` holds. A drawn token that
/// is taken is drawn again a few times; should every draw be taken, the last is extended by
/// one character per string of `ids`, chosen to differ from that string at a position of its
/// own, so that the result can equal none of them.
pub fn unused_token(ids: &Vec<String>, len: usize, attempts: usize) -> (r: String)
    requires
        attempts > 0,
    ensures
        is_id(r@, len as nat),
        !listed(ids@, r@),
        (forall|k: int| 0 <= k < ids@.len() ==> !is_token(#[trigger] ids@[k]@, len as nat)) ==> r@.len()
            == len,
{
    let mut attempt: usize = 0;
    while attempt < attempts
        invariant
            attempt <= attempts,
            attempt > 0 ==> exists|k: int| 0 <= k < ids@.len() && is_token(#[trigger] ids@[k]@, len as nat),
        decreases attempts - attempt,
    {
        let id = random_token(len);
        if !is_listed(ids, id.as_str()) {
            return id;
        }
        proof {
            let k = choose|k: int| 0 <= k < ids@.len() && (#[trigger] ids@[k])@ == id@;
            assert(is_token(ids@[k]@, len as nat));
        }
        attempt = attempt + 1;
    }
    let mut id = random_token(len);
    let ghost first = id@;
    let n = ids.len();
    let mut k: usize = 0;
    proof {
        reveal_strlit("a");
        reveal_strlit("b");
    }
    while k < n
        invariant
            n == ids@.len(),
            k <= n,
            id@.len() == len + k,
            id@.subrange(0, len as int) == first,
            is_token(first, len as nat),
            forall|i: int| 0 <= i < id@.len() ==> is_token_char(#[trigger] id@[i]),
            forall|j: int|
                0 <= j < k ==> (#[trigger] ids@[j])@.len() <= len + j || ids@[j]@[len + j] != id@[len
                    + j],
            "a"@ == seq!['a'],
            "b"@ == seq!['b'],
        decreases n - k,
    {
        let other = ids[k].as_str();
        let olen = other.unicode_len();
        let ghost before = id@;
        if olen > len && olen - len > k && other.get_char(len + k) == 'a' {
            id.append("b");
        } else {
            id.append("a");
        }
        proof {
            assert(id@ =~= before + id@.subrange(before.len() as int, id@.len() as int));
            assert forall|i: int| 0 <= i < id@.len() implies is_token_char(#[trigger] id@[i]) by {
                if i < before.len() {
                    assert(id@[i] == before[i]);
                }
            }
            assert forall|j: int|
                0 <= j < k + 1 implies (#[trigger] ids@[j])@.len() <= len + j || ids@[j]@[len + j]
                != id@[len + j] by {
                if j < k {
                    assert(id@[len + j] == before[len + j]);
                }
            }
            assert(id@.subrange(0, len as int) =~= first);
        }
        k = k + 1;
    }
    proof {
        assert forall|j: int| 0 <= j < ids@.len() implies (#[trigger] ids@[j])@ != id@ by {
            if ids@[j]@.len() > len + j {
                assert(ids@[j]@[len + j] != id@[len + j]);
            }
        }
        if listed(ids@, id@) {
            let j = choose|j: int| 0 <= j < ids@.len() && (#[trigger] ids@[j])@ == id@;
            assert(ids@[j]@ != id@);
        }
    }
    id
}

/// Whether `s` holds a comma.
pub fn contains_comma(s: &str) -> (r: bool)
    ensures
        r == s@.contains(','),
{
    let n = s.unicode_len();
    let mut i: usize = 0;
    while i < n
        invariant
            n == s@.len(),
            i <= n,
            forall|k: int| 0 <= k < i ==> s@[k] != ',',
        decreases n - i,
    {
        if s.get_char(i) == ',' {
            return true;
        }
        i = i + 1;
    }
    false
}

/// Splits `s` at single spaces into its non-empty pieces.
pub fn split_words(s: &str) -> (r: Vec<String>)
    ensures
        r@.len() == words(s@).len(),
        forall|k: int| 0 <= k < r@.len() ==> #[trigger] r@[k]@ == words(s@)[k],
{
    let n = s.unicode_len();
    let mut out: Vec<String> = Vec::new();
    let mut start: usize = 0;
    let mut i: usize = 0;
    while i < n
        invariant
            n == s@.len(),
            start <= i <= n,
            word_scan(s@.take(i as int)).0.len() == out@.len(),
            forall|k: int| 0 <= k < out@.len() ==> #[trigger] out@[k]@ == word_scan(s@.take(i as int)).0[k],
            word_scan(s@.take(i as int)).1 == s@.subrange(start as int, i as int),
        decreases n - i,
    {
        assert(s@.take(i + 1).drop_last() == s@.take(i as int));
        let c = s.get_char(i);
        if c == ' ' {
            if start < i {
                let piece = s.substring_char(start, i);
                out.push(String::from_str(piece));
            }
            start = i + 1;
        }
        i = i + 1;
        assert(s@.subrange(start as int, i as int) =~= word_scan(s@.take(i as int)).1);
    }
    assert(s@.take(n as int) == s@);
    if start < n {
        let piece = s.substring_char(start, n);
        out.push(String::from_str(piece));
    }
    out
}

} // verus!
