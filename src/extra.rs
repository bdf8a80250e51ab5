use vstd::prelude::*;

verus! {

#[verifier::external_type_specification]
#[verifier::external_body]
pub struct ExValue(serde_json::Value);

/// The name of the discriminator field that the outer document uses.
pub open spec fn type_tag() -> Seq<char> {
    seq!['_', 't', 'y', 'p', 'e']
}

/// The fields, in order, without those named by the discriminator.
pub open spec fn without_type<V>(s: Seq<(String, V)>) -> Seq<(String, V)>
    decreases s.len(),
{
    if s.len() == 0 {
        s
    } else if s.last().0@ == type_tag() {
        without_type(s.drop_last())
    } else {
        without_type(s.drop_last()).push(s.last())
    }
}

/// Removes the discriminator field from the extra fields of a role. The
/// other fields and their values pass through unchanged and in order; a
/// bag without the field is returned as it came.
pub fn extra_skip_type(fields: Vec<(String, serde_json::Value)>) -> (r: Vec<(String, serde_json::Value)>)
    ensures
        r@ == without_type(fields@),
{
    let tag = "_type".to_owned();
    proof {
        reveal_strlit("_type");
    }
    assert(tag@ == type_tag());
    let ghost all = fields@;
    let mut pending = fields;
    let mut out: Vec<(String, serde_json::Value)> = Vec::new();
    let n = pending.len();
    let mut i: usize = 0;
    while i < n
        invariant
            all == fields@,
            tag@ == type_tag(),
            n == all.len(),
            0 <= i <= n,
            pending@ == all.subrange(i as int, n as int),
            out@ == without_type(all.subrange(0, i as int)),
        decreases n - i,
    {
        let field = pending.remove(0);
        assert(field == all[i as int]);
        assert(all.subrange(0, i + 1).last() == all[i as int]);
        assert(all.subrange(0, i + 1).drop_last() == all.subrange(0, i as int));
        assert(all.subrange(i + 1, n as int) =~= all.subrange(i as int, n as int).remove(0));
        if field.0 != tag {
            out.push(field);
        }
        i = i + 1;
    }
    assert(all.subrange(0, n as int) == all);
    out
}

/// A bag of extra fields without the discriminator is returned unchanged.
pub proof fn lemma_skip_type_without_tag<V>(s: Seq<(String, V)>)
    requires
        forall|i: int| 0 <= i < s.len() ==> (#[trigger] s[i]).0@ != type_tag(),
    ensures
        without_type(s) == s,
    decreases s.len(),
{
    if s.len() > 0 {
        lemma_skip_type_without_tag(s.drop_last());
        assert(s.drop_last().push(s.last()) == s);
    }
}

/// A bag that holds the discriminator once comes out as the same bag with
/// that one entry taken out, every other entry in its place.
pub proof fn lemma_skip_type_with_tag<V>(s: Seq<(String, V)>, k: int)
    requires
        0 <= k < s.len(),
        s[k].0@ == type_tag(),
        forall|i: int| 0 <= i < s.len() && i != k ==> (#[trigger] s[i]).0@ != type_tag(),
    ensures
        without_type(s) == s.remove(k),
    decreases s.len(),
{
    if k == s.len() - 1 {
        lemma_skip_type_without_tag(s.drop_last());
        assert(s.remove(k) == s.drop_last());
    } else {
        lemma_skip_type_with_tag(s.drop_last(), k);
        assert(s.remove(k) == s.drop_last().remove(k).push(s.last()));
    }
}

/// Removing the discriminator a second time changes nothing.
pub proof fn lemma_skip_type_idempotent<V>(s: Seq<(String, V)>)
    ensures
        without_type(without_type(s)) == without_type(s),
    decreases s.len(),
{
    if s.len() > 0 {
        lemma_skip_type_idempotent(s.drop_last());
        let t = without_type(s.drop_last());
        if s.last().0@ != type_tag() {
            assert(t.push(s.last()).drop_last() == t);
        }
    }
}

} // verus!
