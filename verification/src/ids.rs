//! Numeric identities and the paths they are stored under.

use vstd::prelude::*;

use crate::numerals::{append_padded_key, lemma_decimal, lemma_padded_key_injective, padded_key};
use crate::text::{append, append_str, chars_of, string_of};

verus! {

/// The stable numeric ID of a card script.
#[derive(Clone, Copy, Debug, Eq, Ord, PartialEq, PartialOrd, Structural)]
pub struct CardScriptId(pub u32);

/// The stable numeric ID of a token script.
#[derive(Clone, Copy, Debug, Eq, Ord, PartialEq, PartialOrd, Structural)]
pub struct TokenScriptId(pub u32);

/// `tail` below the directory `root`; an empty root is the current directory.
pub open spec fn path_join(root: Seq<char>, tail: Seq<char>) -> Seq<char> {
    if root.len() == 0 || root.last() == '/' {
        root + tail
    } else {
        root.push('/') + tail
    }
}

/// The path of an ID below the root: three directory levels of two digits
/// each, then the whole key.
pub open spec fn trie_tail(id: nat) -> Seq<char> {
    let key = padded_key(id);
    key.subrange(0, 2).push('/') + key.subrange(2, 4).push('/') + key.subrange(4, 6).push('/') + key
        + seq!['.', 't', 'x', 't']
}

/// The path of an ID below `root`.
pub open spec fn trie_path_of(root: Seq<char>, id: nat) -> Seq<char> {
    path_join(root, trie_tail(id))
}

/// Two IDs are never stored under one path.
pub proof fn law_trie_paths_are_distinct(root: Seq<char>, left: u32, right: u32)
    requires
        trie_path_of(root, left as nat) == trie_path_of(root, right as nat),
    ensures
        left == right,
{
    let a = trie_tail(left as nat);
    let b = trie_tail(right as nat);
    let prefix = trie_path_of(root, left as nat).len() - a.len();
    lemma_decimal(left as nat);
    lemma_decimal(right as nat);
    assert(a =~= trie_path_of(root, left as nat).skip(prefix));
    assert(b =~= trie_path_of(root, right as nat).skip(prefix));
    assert(a.subrange(9, a.len() - 4) =~= padded_key(left as nat));
    assert(b.subrange(9, b.len() - 4) =~= padded_key(right as nat));
    lemma_padded_key_injective(left as nat, right as nat);
}

/// The path of the card with the given ID in the trie below `root`.
pub fn card_path(root: &str, id: u32) -> (path: String)
    ensures
        path@ == trie_path_of(root@, id as nat),
{
    let mut key: Vec<char> = Vec::new();
    append_padded_key(&mut key, id);
    proof {
        lemma_decimal(id as nat);
        assert(key@ == padded_key(id as nat));
    }
    let mut path = chars_of(root);
    if path.len() > 0 && path[path.len() - 1] != '/' {
        path.push('/');
    }
    let ghost head = path@;
    path.push(key[0]);
    path.push(key[1]);
    path.push('/');
    path.push(key[2]);
    path.push(key[3]);
    path.push('/');
    path.push(key[4]);
    path.push(key[5]);
    path.push('/');
    append(&mut path, key.as_slice());
    append_str(&mut path, ".txt");
    proof {
        reveal_strlit(".txt");
        assert(".txt"@ =~= seq!['.', 't', 'x', 't']);
        assert(path@ =~= head + trie_tail(id as nat));
        assert(path@ =~= trie_path_of(root@, id as nat));
    }
    string_of(path.as_slice())
}

impl CardScriptId {
    /// Where the script is stored below `root`.
    pub fn trie_path(&self, root: &str) -> (path: String)
        ensures
            path@ == trie_path_of(root@, self.0 as nat),
    {
        card_path(root, self.0)
    }
}

impl TokenScriptId {
    /// Where the script is stored below `root`.
    pub fn trie_path(&self, root: &str) -> (path: String)
        ensures
            path@ == trie_path_of(root@, self.0 as nat),
    {
        CardScriptId(self.0).trie_path(root)
    }
}

} // verus!
