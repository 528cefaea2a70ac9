//! The downloads that were asked to stop.
use crate::text;
use vstd::prelude::*;

verus! {

/// The keys of the downloads that are to be cancelled, each once.
pub struct Cancels {
    keys: Vec<String>,
}

impl Cancels {
    #[verifier::type_invariant]
    spec fn well_formed(self) -> bool {
        text::texts(self.keys@).no_duplicates()
    }
}

impl View for Cancels {
    type V = Set<Seq<char>>;

    closed spec fn view(&self) -> Set<Seq<char>> {
        text::texts(self.keys@).to_set()
    }
}

/// Nothing is to be cancelled.
pub fn no_cancels() -> (r: Cancels)
    ensures
        r@ == Set::<Seq<char>>::empty(),
{
    let r = Cancels { keys: Vec::new() };
    assert(r@ =~= Set::<Seq<char>>::empty());
    r
}

/// Whether the download is to be cancelled.
pub fn cancel_is_set(cancels: &Cancels, key: &str) -> (r: bool)
    ensures
        r == cancels@.contains(key@),
{
    text::is_among(cancels.keys.as_slice(), key)
}

/// The download is not to be cancelled any more.
pub fn cancel_clear(cancels: &mut Cancels, key: &str)
    ensures
        final(cancels)@ == old(cancels)@.remove(key@),
{
    proof {
        use_type_invariant(&*cancels);
    }
    let ghost all = text::texts(cancels.keys@);
    let mut kept: Vec<String> = Vec::new();
    for i in 0..cancels.keys.len()
        invariant
            all == text::texts(cancels.keys@),
            all.no_duplicates(),
            text::texts(kept@).no_duplicates(),
            forall|t: Seq<char>| #[trigger]
                text::texts(kept@).contains(t) <==> t != key@ && all.take(i as int).contains(t),
    {
        let ghost was = text::texts(kept@);
        let ghost before = all.take(i as int);
        let ghost now = all.take(i + 1);
        assert(now =~= before.push(all[i as int]));
        if !text::same(cancels.keys[i].as_str(), key) {
            kept.push(cancels.keys[i].clone());
            assert(text::texts(kept@) =~= was.push(all[i as int]));
            assert(!was.contains(all[i as int])) by {
                if before.contains(all[i as int]) {
                    let j = choose|j: int| 0 <= j < before.len() && before[j] == all[i as int];
                    assert(all[j] == all[i as int]);
                }
            }
            proof {
                lemma_push_new_key(was, all[i as int]);
            }
        }
        assert forall|t: Seq<char>| #[trigger] text::texts(kept@).contains(t) <==> t != key@
            && now.contains(t) by {
            vstd::seq_lib::lemma_seq_contains_after_push(before, all[i as int], t);
            vstd::seq_lib::lemma_seq_contains_after_push(was, all[i as int], t);
            assert(was.contains(t) <==> t != key@ && before.contains(t));
        }
    }
    assert(all.take(all.len() as int) =~= all);
    cancels.keys = kept;
    assert(cancels@ =~= old(cancels)@.remove(key@));
}

proof fn lemma_push_new_key(s: Seq<Seq<char>>, t: Seq<char>)
    requires
        s.no_duplicates(),
        !s.contains(t),
    ensures
        s.push(t).no_duplicates(),
{
    let now = s.push(t);
    assert forall|i: int, j: int| 0 <= i < now.len() && 0 <= j < now.len() && i != j implies now[i]
        != now[j] by {
        if i < s.len() {
            assert(s.contains(s[i]));
        }
        if j < s.len() {
            assert(s.contains(s[j]));
        }
    }
}

/// The download is to be cancelled.
pub fn cancel_download(cancels: &mut Cancels, key: String)
    ensures
        final(cancels)@ == old(cancels)@.insert(key@),
{
    proof {
        use_type_invariant(&*cancels);
    }
    let ghost was = text::texts(cancels.keys@);
    let mut keys: Vec<String> = Vec::new();
    std::mem::swap(&mut keys, &mut cancels.keys);
    text::push_new(&mut keys, key.as_str());
    proof {
        if !was.contains(key@) {
            lemma_push_new_key(was, key@);
        }
        assert forall|t: Seq<char>| #[trigger] text::texts(keys@).contains(t) <==> t == key@
            || was.contains(t) by {
            vstd::seq_lib::lemma_seq_contains_after_push(was, key@, t);
        }
    }
    cancels.keys = keys;
    assert(cancels@ =~= old(cancels)@.insert(key@));
}

/// Cancelling a download and clearing it again leaves every other download as it was.
pub proof fn law_clearing_undoes_cancelling(s: Set<Seq<char>>, key: Seq<char>)
    ensures
        !s.insert(key).remove(key).contains(key),
        forall|other: Seq<char>|
            other != key ==> (#[trigger] s.insert(key).remove(key).contains(other) <==> s.contains(
                other,
            )),
{
}

} // verus!
