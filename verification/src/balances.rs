//! Token balance books: association lists from token name to amount, with
//! first-match lookup.

use vstd::prelude::*;

verus! {

/// First-match lookup in a balance book.
pub open spec fn spec_balance(entries: Seq<(String, u64)>, key: Seq<char>) -> Option<u64>
    decreases entries.len(),
{
    if entries.len() == 0 {
        None
    } else if entries[0].0@ == key {
        Some(entries[0].1)
    } else {
        spec_balance(entries.drop_first(), key)
    }
}

/// The balance, defaulting to zero for an absent entry.
pub open spec fn spec_balance_or_zero(entries: Seq<(String, u64)>, key: Seq<char>) -> u64 {
    match spec_balance(entries, key) {
        Some(b) => b,
        None => 0,
    }
}

/// Looks a balance up by token name.
pub fn lookup_balance(entries: &Vec<(String, u64)>, key: &String) -> (r: Option<u64>)
    ensures
        r == spec_balance(entries@, key@),
{
    let n = entries.len();
    let mut i: usize = 0;
    proof {
        assert(entries@.skip(0) =~= entries@);
    }
    while i < n
        invariant
            n == entries@.len(),
            0 <= i <= n,
            spec_balance(entries@, key@) == spec_balance(entries@.skip(i as int), key@),
        decreases n - i,
    {
        let hit = entries[i].0 == *key;
        proof {
            let rest = entries@.skip(i as int);
            assert(rest[0] == entries@[i as int]);
            assert(rest.drop_first() =~= entries@.skip(i as int + 1));
        }
        if hit {
            return Some(entries[i].1);
        }
        i = i + 1;
    }
    proof {
        assert(entries@.skip(n as int) =~= Seq::<(String, u64)>::empty());
    }
    None
}

/// Updating the first entry for a key rewrites exactly that key's balance.
proof fn lemma_balance_update(s: Seq<(String, u64)>, i: int, v: u64, q: Seq<char>)
    requires
        0 <= i < s.len(),
        forall|j: int| 0 <= j < i ==> (#[trigger] s[j]).0@ != s[i].0@,
    ensures
        spec_balance(s.update(i, (s[i].0, v)), q) == if q == s[i].0@ {
            Some(v)
        } else {
            spec_balance(s, q)
        },
    decreases i,
{
    let s2 = s.update(i, (s[i].0, v));
    if i == 0 {
        if s[0].0@ == q {
        } else {
            assert(s2.drop_first() =~= s.drop_first());
        }
    } else {
        assert(s2[0] == s[0]);
        assert(s[0].0@ != s[i].0@);
        let t = s.drop_first();
        assert forall|j: int| 0 <= j < i - 1 implies (#[trigger] t[j]).0@ != t[i - 1].0@ by {
            assert(t[j] == s[j + 1]);
        }
        assert(t[i - 1] == s[i]);
        lemma_balance_update(t, i - 1, v, q);
        assert(s2.drop_first() =~= t.update(i - 1, (s[i].0, v)));
    }
}

/// Appending an entry for a key absent from the book makes lookups of that
/// key find it and leaves every other key's lookup unchanged.
proof fn lemma_balance_push(s: Seq<(String, u64)>, key: String, v: u64, q: Seq<char>)
    requires
        forall|j: int| 0 <= j < s.len() ==> (#[trigger] s[j]).0@ != key@,
    ensures
        spec_balance(s.push((key, v)), q) == if q == key@ {
            Some(v)
        } else {
            spec_balance(s, q)
        },
    decreases s.len(),
{
    let s2 = s.push((key, v));
    if s.len() == 0 {
        assert(s2.len() == 1);
        assert(s2[0] == (key, v));
        assert(s2.drop_first() =~= Seq::<(String, u64)>::empty());
        assert(spec_balance(Seq::<(String, u64)>::empty(), q) == None::<u64>);
    } else {
        assert(s2[0] == s[0]);
        let t = s.drop_first();
        assert forall|j: int| 0 <= j < t.len() implies (#[trigger] t[j]).0@ != key@ by {
            assert(t[j] == s[j + 1]);
        }
        lemma_balance_push(t, key, v, q);
        assert(s2.drop_first() =~= t.push((key, v)));
        assert(s[0].0@ != key@);
    }
}

/// Sets the balance of a token, adding an entry when none exists.
pub fn set_balance(entries: &mut Vec<(String, u64)>, key: &String, v: u64)
    ensures
        forall|q: Seq<char>|
            spec_balance(final(entries)@, q) == if q == key@ {
                Some(v)
            } else {
                spec_balance(old(entries)@, q)
            },
        final(entries)@.len() <= old(entries)@.len() + 1,
{
    let n = entries.len();
    let mut i: usize = 0;
    while i < n
        invariant
            n == entries@.len(),
            0 <= i <= n,
            *entries == *old(entries),
            forall|j: int| 0 <= j < i ==> (#[trigger] entries@[j]).0@ != key@,
        decreases n - i,
    {
        if entries[i].0 == *key {
            let pair = entries.remove(i);
            entries.insert(i, (pair.0, v));
            proof {
                assert(entries@ =~= old(entries)@.update(i as int, (old(entries)@[i as int].0, v)));
                assert forall|q: Seq<char>|
                    spec_balance(entries@, q) == (if q == key@ {
                        Some(v)
                    } else {
                        spec_balance(old(entries)@, q)
                    }) by {
                    lemma_balance_update(old(entries)@, i as int, v, q);
                }
            }
            return ;
        }
        i = i + 1;
    }
    let ck = key.clone();
    entries.push((ck, v));
    proof {
        let pushed = entries@[entries@.len() - 1];
        assert(pushed.0@ == key@);
        assert forall|q: Seq<char>|
            spec_balance(entries@, q) == (if q == key@ {
                Some(v)
            } else {
                spec_balance(old(entries)@, q)
            }) by {
            lemma_balance_push(old(entries)@, pushed.0, v, q);
            assert(entries@ == old(entries)@.push((pushed.0, v)));
        }
    }
}

} // verus!
