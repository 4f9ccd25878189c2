//! Collision-safe naming for extracted files. A file keeps its base name;
//! when that name is already taken, a zero-padded numeric suffix is spliced
//! in before the extension, probing 1, 2, 3, … until a free name is found.
//! The probe is deterministic, and never returns a name from the taken
//! list.

use vstd::prelude::*;

use vstd::seq_lib::seq_to_set_is_finite;
use vstd::set_lib::lemma_len_subset;

use crate::digits::{dec_digits, format_decimal, lemma_parse_of_dec_digits, spec_parse_dec};
use crate::hashing::bytes_eq;
use crate::mime::{last_dot, spec_ext_bytes, split_extension};

verus! {

/// The part of a file name before its extension.
pub open spec fn spec_base_bytes(name: Seq<u8>) -> Seq<u8> {
    if spec_ext_bytes(name).len() > 0 {
        name.subrange(0, last_dot(name))
    } else {
        name
    }
}

/// The `k`-th name tried for a file: the name itself first, then the name
/// with `-` and a zero-padded `k` spliced in before the extension.
pub open spec fn candidate(name: Seq<u8>, k: nat) -> Seq<u8> {
    if k == 0 {
        name
    } else if spec_ext_bytes(name).len() > 0 {
        spec_base_bytes(name) + seq![45u8] + dec_digits(k as int, 3) + seq![46u8] + spec_ext_bytes(
            name,
        )
    } else {
        name + seq![45u8] + dec_digits(k as int, 3)
    }
}

/// Whether a name is already taken.
pub open spec fn in_list(existing: Seq<Seq<u8>>, x: Seq<u8>) -> bool {
    exists|j: int| 0 <= j < existing.len() && existing[j] == x
}

/// Among the dots past a name's first byte there is a last one.
proof fn lemma_last_dot_from(name: Seq<u8>, t: int)
    requires
        exists|i: int| 1 <= i < t && name[i] == 46,
        t <= name.len(),
        forall|j: int| t <= j < name.len() ==> name[j] != 46,
    ensures
        exists|i: int|
            1 <= i < name.len() && name[i] == 46 && (forall|j: int|
                i < j < name.len() ==> name[j] != 46),
    decreases t,
{
    if name[t - 1] == 46 {
        assert(1 <= t - 1 < name.len() && name[t - 1] == 46 && (forall|j: int|
            t - 1 < j < name.len() ==> name[j] != 46));
    } else {
        assert(exists|i: int| 1 <= i < t - 1 && name[i] == 46) by {
            let i = choose|i: int| 1 <= i < t && name[i] == 46;
            assert(1 <= i < t - 1 && name[i] == 46);
        }
        lemma_last_dot_from(name, t - 1);
    }
}

/// A name with an extension is its base, a dot, and the extension.
proof fn lemma_name_splits(name: Seq<u8>)
    requires
        spec_ext_bytes(name).len() > 0,
    ensures
        name == spec_base_bytes(name) + seq![46u8] + spec_ext_bytes(name),
        name.len() == spec_base_bytes(name).len() + 1 + spec_ext_bytes(name).len(),
{
    assert(exists|i: int| 1 <= i < name.len() && name[i] == 46) by {
        if !(exists|i: int| 1 <= i < name.len() && name[i] == 46) {
            assert(spec_ext_bytes(name) =~= Seq::<u8>::empty());
        }
    }
    lemma_last_dot_from(name, name.len() as int);
    let i = last_dot(name);
    assert(1 <= i < name.len() && name[i] == 46);
    assert(name =~= name.subrange(0, i) + seq![name[i]] + name.subrange(i + 1, name.len() as int));
}

/// Distinct probe indices give distinct names.
proof fn lemma_candidate_injective(name: Seq<u8>, j: nat, k: nat)
    requires
        j != k,
    ensures
        candidate(name, j) != candidate(name, k),
{
    crate::digits::lemma_dec_rep_digits(j as int);
    crate::digits::lemma_dec_rep_digits(k as int);
    if spec_ext_bytes(name).len() > 0 {
        lemma_name_splits(name);
    }
    if j == 0 || k == 0 {
        // A suffixed candidate is strictly longer than the name itself.
        assert(dec_digits(1int, 3).len() >= 3) by {
            assert(crate::digits::dec_rep(1int).len() >= 1);
        }
        assert(candidate(name, j).len() != candidate(name, k).len()) by {
            if j == 0 {
                assert(dec_digits(k as int, 3).len() >= 3);
            } else {
                assert(dec_digits(j as int, 3).len() >= 3);
            }
        }
    } else {
        if candidate(name, j) == candidate(name, k) {
            let b = spec_base_bytes(name);
            let pre_len = if spec_ext_bytes(name).len() > 0 {
                b.len() + 1
            } else {
                name.len() + 1
            };
            let dj = dec_digits(j as int, 3);
            let dk = dec_digits(k as int, 3);
            // Equal candidates have equal length, so the digit fields have
            // equal length, stand at the same offset, and are equal.
            assert(candidate(name, j).len() == pre_len + dj.len() + (candidate(name, j).len()
                - pre_len - dj.len()));
            assert(dj.len() == dk.len());
            assert(dj =~= dk) by {
                assert forall|t: int| 0 <= t < dj.len() implies dj[t] == dk[t] by {
                    assert(candidate(name, j)[pre_len + t] == dj[t]);
                    assert(candidate(name, k)[pre_len + t] == dk[t]);
                }
            }
            lemma_parse_of_dec_digits(j as int, 3);
            lemma_parse_of_dec_digits(k as int, 3);
            assert(spec_parse_dec(dj) == Some(j as int));
            assert(spec_parse_dec(dk) == Some(k as int));
            assert(false);
        }
    }
}

/// If every one of the first `m` candidate names is taken, the taken list
/// holds at least `m` names: the candidates are pairwise distinct.
proof fn lemma_candidates_pigeonhole(name: Seq<u8>, existing: Seq<Seq<u8>>, m: nat)
    requires
        forall|k: nat| k < m ==> in_list(existing, #[trigger] candidate(name, k)),
    ensures
        m <= existing.len(),
    decreases m,
{
    let cs = Set::new(|x: Seq<u8>| exists|k: nat| k < m && x == candidate(name, k));
    lemma_candidate_set_size(name, m);
    assert(cs.subset_of(existing.to_set())) by {
        assert forall|x: Seq<u8>| cs.contains(x) implies existing.to_set().contains(x) by {
            let k = choose|k: nat| k < m && x == candidate(name, k);
            assert(in_list(existing, candidate(name, k)));
            let j = choose|j: int| 0 <= j < existing.len() && existing[j] == x;
            assert(existing.contains(x));
        }
    }
    seq_to_set_is_finite(existing);
    lemma_len_subset(cs, existing.to_set());
    existing.lemma_cardinality_of_set();
}

/// The first `m` candidate names are `m` distinct names.
proof fn lemma_candidate_set_size(name: Seq<u8>, m: nat)
    ensures
        Set::new(|x: Seq<u8>| exists|k: nat| k < m && x == candidate(name, k)).finite(),
        Set::new(|x: Seq<u8>| exists|k: nat| k < m && x == candidate(name, k)).len() == m,
    decreases m,
{
    let cs = Set::new(|x: Seq<u8>| exists|k: nat| k < m && x == candidate(name, k));
    if m == 0 {
        assert(cs =~= Set::<Seq<u8>>::empty());
    } else {
        let prev = Set::new(
            |x: Seq<u8>| exists|k: nat| k < (m - 1) as nat && x == candidate(name, k),
        );
        lemma_candidate_set_size(name, (m - 1) as nat);
        assert(cs =~= prev.insert(candidate(name, (m - 1) as nat))) by {
            assert forall|x: Seq<u8>| cs.contains(x) implies prev.insert(
                candidate(name, (m - 1) as nat),
            ).contains(x) by {
                let k = choose|k: nat| k < m && x == candidate(name, k);
                if k < (m - 1) as nat {
                    assert(prev.contains(x));
                }
            }
        }
        assert(!prev.contains(candidate(name, (m - 1) as nat))) by {
            if prev.contains(candidate(name, (m - 1) as nat)) {
                let k = choose|k: nat|
                    k < (m - 1) as nat && candidate(name, (m - 1) as nat) == #[trigger] candidate(
                        name,
                        k,
                    );
                lemma_candidate_injective(name, k, (m - 1) as nat);
            }
        }
    }
}

/// Whether `x` occurs in the list of taken names.
fn list_contains(existing: &Vec<Vec<u8>>, x: &Vec<u8>) -> (r: bool)
    ensures
        r == in_list(existing@.map_values(|v: Vec<u8>| v@), x@),
{
    let ghost views = existing@.map_values(|v: Vec<u8>| v@);
    let mut j: usize = 0;
    while j < existing.len()
        invariant
            j <= existing@.len(),
            views == existing@.map_values(|v: Vec<u8>| v@),
            forall|t: int| 0 <= t < j ==> views[t] != x@,
        decreases existing@.len() - j,
    {
        if bytes_eq(existing[j].as_slice(), x.as_slice()) {
            proof {
                assert(views[j as int] == x@);
            }
            return true;
        }
        j = j + 1;
    }
    false
}

/// Picks the first name, in probe order, that is not already taken:
/// the file's own name when it is free, else the name with the smallest
/// numeric suffix spliced in before the extension. The result is never a
/// taken name, so repeated extractions of one file never collide.
pub fn collision_free_name(file_name: &Vec<u8>, existing: &Vec<Vec<u8>>) -> (r: Vec<u8>)
    ensures
        ({
            let views = existing@.map_values(|v: Vec<u8>| v@);
            &&& !in_list(views, r@)
            &&& exists|k: nat|
                r@ == #[trigger] candidate(file_name@, k) && forall|j: nat|
                    j < k ==> in_list(views, #[trigger] candidate(file_name@, j))
        }),
{
    let ghost views = existing@.map_values(|v: Vec<u8>| v@);
    let n_taken: usize = existing.len();
    proof {
        assert(existing@.len() <= u64::MAX);
    }
    let (base, ext) = split_extension(file_name);
    let mut k: u64 = 0;
    let mut cand: Vec<u8> = Vec::new();
    cand.extend_from_slice(file_name.as_slice());
    proof {
        assert(cand@ =~= candidate(file_name@, 0));
    }
    loop
        invariant
            cand@ == candidate(file_name@, k as nat),
            forall|j: nat| j < k as nat ==> in_list(views, #[trigger] candidate(file_name@, j)),
            k <= views.len(),
            views.len() == existing@.len(),
            existing@.len() == n_taken,
            views == existing@.map_values(|v: Vec<u8>| v@),
            base@ == spec_base_bytes(file_name@),
            ext@ == spec_ext_bytes(file_name@),
        decreases views.len() - k,
    {
        if !list_contains(existing, &cand) {
            return cand;
        }
        proof {
            assert forall|j: nat| j < (k + 1) as nat implies in_list(
                views,
                #[trigger] candidate(file_name@, j),
            ) by {
                if j == k as nat {
                    assert(candidate(file_name@, j) == cand@);
                }
            }
            lemma_candidates_pigeonhole(file_name@, views, (k + 1) as nat);
            assert(views.len() == existing@.len());
            assert(k + 1 <= existing@.len());
        }
        k = k + 1;
        let suffix = format_decimal(k, 3);
        let mut next: Vec<u8> = Vec::new();
        next.extend_from_slice(base.as_slice());
        next.push(45);
        next.extend_from_slice(suffix.as_slice());
        if ext.len() > 0 {
            next.push(46);
            next.extend_from_slice(ext.as_slice());
        }
        proof {
            if spec_ext_bytes(file_name@).len() > 0 {
                assert(next@ =~= spec_base_bytes(file_name@) + seq![45u8] + dec_digits(
                    k as int,
                    3,
                ) + seq![46u8] + spec_ext_bytes(file_name@));
            } else {
                assert(next@ =~= file_name@ + seq![45u8] + dec_digits(k as int, 3));
            }
        }
        cand = next;
    }
}

} // verus!
