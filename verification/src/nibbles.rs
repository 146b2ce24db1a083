//! Keys as paths of nibbles: the trie branches sixteen ways, on four bits of
//! the key at a time, high bits first.

use vstd::prelude::*;

verus! {

/// Every element is a nibble: below sixteen.
pub open spec fn is_nibble_path(p: Seq<u8>) -> bool {
    forall|i: int| 0 <= i < p.len() ==> #[trigger] p[i] < 16
}

/// The path of a key: two nibbles per byte, the high one first.
pub open spec fn key_path(key: Seq<u8>) -> Seq<u8> {
    Seq::new(
        2 * key.len(),
        |i: int|
            if i % 2 == 0 {
                key[i / 2] / 16
            } else {
                key[i / 2] % 16
            },
    )
}

/// The path of a key holds nibbles only.
pub proof fn lemma_key_path_is_nibble_path(key: Seq<u8>)
    ensures
        is_nibble_path(key_path(key)),
        key_path(key).len() == 2 * key.len(),
{
}

/// Different keys have different paths.
pub proof fn lemma_key_path_injective(a: Seq<u8>, b: Seq<u8>)
    requires
        key_path(a) == key_path(b),
    ensures
        a == b,
{
    assert(key_path(a).len() == 2 * a.len());
    assert(key_path(b).len() == 2 * b.len());
    assert(a.len() == b.len());
    assert forall|i: int| 0 <= i < a.len() implies a[i] == b[i] by {
        assert(key_path(a)[2 * i] == a[i] / 16);
        assert(key_path(b)[2 * i] == b[i] / 16);
        assert(key_path(a)[2 * i + 1] == a[i] % 16);
        assert(key_path(b)[2 * i + 1] == b[i] % 16);
    }
    assert(a =~= b);
}

/// Computes the path of a key.
pub fn to_key_path(key: &[u8]) -> (path: Vec<u8>)
    ensures
        path@ == key_path(key@),
{
    let mut path: Vec<u8> = Vec::new();
    let mut i: usize = 0;
    while i < key.len()
        invariant
            i <= key@.len(),
            path@ == key_path(key@.subrange(0, i as int)),
        decreases key@.len() - i,
    {
        let b = key[i];
        path.push(b / 16);
        path.push(b % 16);
        assert(path@ =~= key_path(key@.subrange(0, i + 1))) by {
            let shorter = key_path(key@.subrange(0, i as int));
            let longer = key_path(key@.subrange(0, i + 1));
            assert(longer.len() == shorter.len() + 2);
            assert forall|j: int| 0 <= j < shorter.len() implies longer[j] == shorter[j] by {
                assert(key@.subrange(0, i + 1)[j / 2] == key@.subrange(0, i as int)[j / 2]);
            }
            assert(longer[2 * i] == b / 16);
            assert(longer[2 * i + 1] == b % 16);
        }
        i = i + 1;
    }
    assert(key@.subrange(0, i as int) =~= key@);
    path
}

/// How many leading elements `a` and `b` share.
pub open spec fn common_prefix_len(a: Seq<u8>, b: Seq<u8>) -> nat
    decreases a.len(),
{
    if a.len() == 0 || b.len() == 0 || a[0] != b[0] {
        0
    } else {
        1 + common_prefix_len(a.skip(1), b.skip(1))
    }
}

/// `p` is a prefix of `key`.
pub open spec fn starts_with(key: Seq<u8>, p: Seq<u8>) -> bool {
    p.len() <= key.len() && key.subrange(0, p.len() as int) == p
}

/// What the common prefix is: both agree on it, and differ right behind it
/// unless one of them ends there.
pub proof fn lemma_common_prefix(a: Seq<u8>, b: Seq<u8>)
    ensures
        common_prefix_len(a, b) <= a.len(),
        common_prefix_len(a, b) <= b.len(),
        a.subrange(0, common_prefix_len(a, b) as int) == b.subrange(
            0,
            common_prefix_len(a, b) as int,
        ),
        common_prefix_len(a, b) < a.len() && common_prefix_len(a, b) < b.len() ==> a[common_prefix_len(
            a,
            b,
        ) as int] != b[common_prefix_len(a, b) as int],
    decreases a.len(),
{
    if a.len() == 0 || b.len() == 0 || a[0] != b[0] {
        assert(a.subrange(0, 0) =~= b.subrange(0, 0));
    } else {
        lemma_common_prefix(a.skip(1), b.skip(1));
        let c = common_prefix_len(a.skip(1), b.skip(1)) as int;
        assert(a.subrange(0, c + 1) =~= b.subrange(0, c + 1)) by {
            assert forall|i: int| 0 <= i < c + 1 implies a[i] == b[i] by {
                if i > 0 {
                    assert(a.skip(1).subrange(0, c)[i - 1] == b.skip(1).subrange(0, c)[i - 1]);
                }
            }
        }
        if c + 1 < a.len() && c + 1 < b.len() {
            assert(a.skip(1)[c] == a[c + 1]);
            assert(b.skip(1)[c] == b[c + 1]);
        }
    }
}

/// Counts the leading elements of `path` that agree with `key` from `pos` on.
pub fn match_len(path: &Vec<u8>, key: &Vec<u8>, pos: usize) -> (n: usize)
    requires
        pos <= key@.len(),
    ensures
        n == common_prefix_len(path@, key@.skip(pos as int)),
        n <= path@.len(),
        pos + n <= key.len(),
{
    let mut n: usize = 0;
    assert(path@.skip(0) =~= path@);
    while n < path.len() && n < key.len() - pos && path[n] == key[pos + n]
        invariant
            pos <= key@.len(),
            n <= path@.len(),
            pos + n <= key@.len(),
            common_prefix_len(path@, key@.skip(pos as int)) == n + common_prefix_len(
                path@.skip(n as int),
                key@.skip(pos + n),
            ),
        decreases path@.len() - n,
    {
        proof {
            let a = path@.skip(n as int);
            let b = key@.skip(pos + n);
            assert(a[0] == b[0]);
            assert(a.skip(1) =~= path@.skip(n + 1));
            assert(b.skip(1) =~= key@.skip(pos + n + 1));
        }
        n = n + 1;
    }
    proof {
        let a = path@.skip(n as int);
        let b = key@.skip(pos + n);
        if n < path@.len() && pos + n < key@.len() {
            assert(a[0] != b[0]);
        }
        assert(common_prefix_len(a, b) == 0);
    }
    n
}

} // verus!
