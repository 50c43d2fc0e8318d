//! Account identifiers: their validity, their two-label root, and the trust
//! decision that the collection protocol applies to every source.

use vstd::prelude::*;

verus! {

pub open spec fn is_separator(c: char) -> bool {
    c == '-' || c == '_' || c == '.'
}

pub open spec fn is_id_char(c: char) -> bool {
    ('a' <= c && c <= 'z') || ('0' <= c && c <= '9') || is_separator(c)
}

/// A valid account id: 2 to 64 characters out of `a-z`, `0-9`, `-`, `_` and
/// `.`, where a separator is never first, never last, and never next to
/// another separator.
pub open spec fn valid_account_id(s: Seq<char>) -> bool {
    &&& 2 <= s.len() <= 64
    &&& forall|i: int| 0 <= i < s.len() ==> is_id_char(#[trigger] s[i])
    &&& !is_separator(s[0])
    &&& !is_separator(s.last())
    &&& forall|i: int| 1 <= i < s.len() ==> !(is_separator(s[i - 1]) && is_separator(#[trigger] s[i]))
}

/// Relies on near_sdk::env::is_valid_account_id, the host's own account-id
/// check: the byte length is 2 to 64, every byte is `a-z`, `0-9`, `-`, `_` or
/// `.`, and no separator starts, ends or follows another separator.
#[verifier::external_body]
fn account_id_is_valid(s: &str) -> (r: bool)
    ensures
        r == valid_account_id(s@),
{
    near_sdk::env::is_valid_account_id(s.as_bytes())
}

/// Number of `.` characters in `s`.
pub open spec fn count_dots(s: Seq<char>) -> nat
    decreases s.len(),
{
    if s.len() == 0 {
        0
    } else {
        (if s[0] == '.' { 1nat } else { 0nat }) + count_dots(s.drop_first())
    }
}

/// `r` is the two-label root of `s`: the suffix of `s` that begins a label and
/// holds exactly one dot (the last two dot-separated labels).
pub open spec fn is_root_of(s: Seq<char>, r: Seq<char>) -> bool {
    &&& r.len() <= s.len()
    &&& s.subrange(s.len() - r.len(), s.len() as int) == r
    &&& (r.len() == s.len() || s[s.len() - r.len() - 1] == '.')
    &&& count_dots(r) == 1
}

/// `source` is trusted by a system whose own id is `own`: both ids have the
/// same valid two-label root, or `source` is on the allow-list.
pub open spec fn trusted(source: Seq<char>, own: Seq<char>, allow_list: Seq<Seq<char>>) -> bool {
    (exists|r: Seq<char>| is_root_of(source, r) && is_root_of(own, r) && valid_account_id(r))
        || allow_list.contains(source)
}

proof fn lemma_count_step(s: Seq<char>, i: int)
    requires
        0 <= i < s.len(),
    ensures
        count_dots(s.subrange(i, s.len() as int)) == (if s[i] == '.' { 1nat } else { 0nat })
            + count_dots(s.subrange(i + 1, s.len() as int)),
{
    assert(s.subrange(i, s.len() as int).drop_first() =~= s.subrange(i + 1, s.len() as int));
}

proof fn lemma_count_suffix_le(s: Seq<char>, a: int, b: int)
    requires
        0 <= a <= b <= s.len(),
    ensures
        count_dots(s.subrange(b, s.len() as int)) <= count_dots(s.subrange(a, s.len() as int)),
    decreases b - a,
{
    if a < b {
        lemma_count_step(s, a);
        lemma_count_suffix_le(s, a + 1, b);
    }
}

/// An id has at most one two-label root.
pub proof fn lemma_root_unique(s: Seq<char>, r1: Seq<char>, r2: Seq<char>)
    requires
        is_root_of(s, r1),
        is_root_of(s, r2),
    ensures
        r1 == r2,
{
    let n = s.len() as int;
    if r1.len() < r2.len() {
        let b = n - r1.len();
        lemma_count_step(s, b - 1);
        lemma_count_suffix_le(s, n - r2.len(), b - 1);
    } else if r2.len() < r1.len() {
        let b = n - r2.len();
        lemma_count_step(s, b - 1);
        lemma_count_suffix_le(s, n - r1.len(), b - 1);
    }
}

/// The two-label root of an account id (`"app.popula.near"` gives
/// `"popula.near"`), or `None` where the id has no dot or its root is not a
/// valid account id.
pub fn get_root_id(contract_id: &str) -> (r: Option<String>)
    ensures
        match r {
            Some(root) => is_root_of(contract_id@, root@) && valid_account_id(root@),
            None => forall|x: Seq<char>| is_root_of(contract_id@, x) ==> !valid_account_id(x),
        },
{
    let n = contract_id.unicode_len();
    let ghost s = contract_id@;
    let mut i: usize = n;
    let mut dots: usize = 0;
    let mut start: Option<usize> = None;
    while i > 0 && start.is_none()
        invariant
            i <= n == s.len(),
            s == contract_id@,
            match start {
                None => dots == count_dots(s.subrange(i as int, n as int)) && dots <= 1,
                Some(k) => k == i + 1 && k <= n && s[k - 1] == '.' && count_dots(
                    s.subrange(k as int, n as int),
                ) == 1,
            },
        decreases i + (if start.is_none() { 1int } else { 0int }),
    {
        let c = contract_id.get_char(i - 1);
        proof {
            lemma_count_step(s, i - 1);
        }
        if c == '.' {
            if dots == 1 {
                start = Some(i);
            } else {
                dots = 1;
            }
        }
        i = i - 1;
    }
    let k: usize = match start {
        Some(k) => k,
        None => {
            if dots == 1 {
                assert(s.subrange(0, n as int) =~= s);
                0
            } else {
                proof {
                    assert forall|x: Seq<char>| is_root_of(s, x) implies !valid_account_id(x) by {
                        lemma_count_suffix_le(s, 0, n - x.len());
                        assert(s.subrange(0, n as int) =~= s);
                    }
                }
                return None;
            }
        },
    };
    let root = contract_id.substring_char(k, n).to_owned();
    assert(is_root_of(s, root@));
    if account_id_is_valid(root.as_str()) {
        Some(root)
    } else {
        proof {
            assert forall|x: Seq<char>| is_root_of(s, x) implies !valid_account_id(x) by {
                lemma_root_unique(s, x, root@);
            }
        }
        None
    }
}

/// Whether `source` may be queried and credited by a system whose own id is
/// `own_id`, given the owner's allow-list.
pub fn is_trusted(source: &String, own_id: &String, white_list: &Vec<String>) -> (r: bool)
    ensures
        r == trusted(source@, own_id@, white_list.deep_view()),
{
    let ghost allow = white_list.deep_view();
    let mut listed = false;
    let mut i: usize = 0;
    while i < white_list.len()
        invariant
            i <= white_list.len(),
            allow == white_list.deep_view(),
            listed == (exists|j: int| 0 <= j < i && allow[j] == source@),
        decreases white_list.len() - i,
    {
        if white_list[i] == *source {
            assert(allow[i as int] == source@);
            listed = true;
        }
        i = i + 1;
    }
    assert(listed == allow.contains(source@));
    if listed {
        return true;
    }
    match (get_root_id(source.as_str()), get_root_id(own_id.as_str())) {
        (Some(a), Some(b)) => {
            if a == b {
                true
            } else {
                proof {
                    assert forall|x: Seq<char>|
                        is_root_of(source@, x) && is_root_of(own_id@, x) implies !valid_account_id(
                        x,
                    ) by {
                        lemma_root_unique(source@, x, a@);
                        lemma_root_unique(own_id@, x, b@);
                    }
                }
                false
            }
        },
        _ => false,
    }
}

/// The value held by an `Option` that the caller knows to be present.
pub fn expect_register<T>(option: Option<T>) -> (r: T)
    requires
        option is Some,
    ensures
        r == option->0,
{
    option.unwrap()
}

} // verus!
