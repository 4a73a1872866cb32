use crate::digest::{content_hash, content_hash_of};
use crate::order::{sort_texts, sorted_of, views};
use crate::step::{comma_join, step_text, ResourceSpec, SpecView};
use vstd::multiset::Multiset;
use vstd::prelude::*;
use vstd::string::StringExecFns;
use vstd::utf8::encode_utf8;

verus! {

/// The text of a request with its regions in ascending order.
pub open spec fn canonical_text(s: SpecView) -> Seq<char> {
    step_text(
        SpecView {
            index_type: s.index_type,
            data_source: s.data_source,
            regions: sorted_of(s.regions.to_multiset()),
        },
    )
}

/// The signature of an index: the content hash of its canonical text.
pub open spec fn index_signature_of(s: SpecView) -> Seq<char> {
    content_hash_of(encode_utf8(canonical_text(s)))
}

/// The signature of an environment: the content hash of the signatures of
/// its indexes, in ascending order and separated by commas.
pub open spec fn environment_signature_of(sigs: Multiset<Seq<char>>) -> Seq<char> {
    content_hash_of(encode_utf8(comma_join(sorted_of(sigs))))
}

/// The signature of an index does not depend on the order in which its
/// regions are listed: requests with the same type, the same source and the
/// same regions, counted with repetition, have the same signature.
pub proof fn lemma_signature_order_independent(a: SpecView, b: SpecView)
    requires
        a.index_type == b.index_type,
        a.data_source == b.data_source,
        a.regions.to_multiset() == b.regions.to_multiset(),
    ensures
        index_signature_of(a) == index_signature_of(b),
        canonical_text(a) == canonical_text(b),
{
}

/// The texts of `v` separated by commas.
pub fn join_with_commas(v: &Vec<String>) -> (r: String)
    ensures
        r@ == comma_join(views(v@)),
{
    let mut out = String::new();
    let mut i: usize = 0;
    while i < v.len()
        invariant
            i <= v@.len(),
            out@ == comma_join(views(v@.subrange(0, i as int))),
        decreases v@.len() - i,
    {
        proof {
            let p = views(v@.subrange(0, i + 1));
            assert(p.drop_last() =~= views(v@.subrange(0, i as int)));
            assert(p.last() == v@[i as int]@);
        }
        if i > 0 {
            proof {
                reveal_strlit(",");
            }
            out.append(",");
        }
        out.append(v[i].as_str());
        proof {
            let p = views(v@.subrange(0, i + 1));
            assert(out@ =~= comma_join(p));
        }
        i = i + 1;
    }
    assert(v@.subrange(0, i as int) =~= v@);
    out
}

impl ResourceSpec {
    /// The step text that asks for this resource.
    pub fn to_step_text(&self) -> (r: String)
        ensures
            r@ == step_text(self@),
    {
        compose_step_text(self.index_type.as_str(), self.data_source.as_str(), &self.regions)
    }
}

/// The step text of a request given by its parts.
fn compose_step_text(index_type: &str, data_source: &str, regions: &Vec<String>) -> (r: String)
    ensures
        r@ == step_text(
            SpecView { index_type: index_type@, data_source: data_source@, regions: views(regions@) },
        ),
{
    proof {
        reveal_strlit(" covering ");
        reveal_strlit(" in ");
    }
    let mut out = String::new();
    out.append(index_type);
    out.append(" covering ");
    out.append(data_source);
    out.append(" in ");
    let joined = join_with_commas(regions);
    out.append(joined.as_str());
    assert(out@ =~= step_text(
        SpecView { index_type: index_type@, data_source: data_source@, regions: views(regions@) },
    ));
    out
}

/// The signature of the index that `spec` asks for.
pub fn index_signature(spec: &ResourceSpec) -> (r: String)
    ensures
        r@ == index_signature_of(spec@),
{
    let sorted = sort_texts(&spec.regions);
    let text = compose_step_text(spec.index_type.as_str(), spec.data_source.as_str(), &sorted);
    content_hash(text.as_str().as_bytes())
}

/// The signature of an environment whose indexes have the given signatures.
pub fn environment_signature(sigs: &Vec<String>) -> (r: String)
    ensures
        r@ == environment_signature_of(views(sigs@).to_multiset()),
{
    let sorted = sort_texts(sigs);
    let text = join_with_commas(&sorted);
    content_hash(text.as_str().as_bytes())
}

} // verus!
