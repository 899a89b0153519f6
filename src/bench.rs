//! Input for measuring the tokenizer.
use vstd::prelude::*;
use crate::lexer::string_of;

verus! {

/// The unit that the sample text repeats.
pub open spec fn sample_unit() -> Seq<char> {
    "abcd "@
}

/// `"abcd "` five hundred times over.
pub fn generate_text() -> (r: String)
    ensures
        r@.len() == 2500,
        forall|i: int| 0 <= i < 2500 ==> #[trigger] r@[i] == sample_unit()[i % 5],
{
    let mut v: Vec<char> = Vec::new();
    let mut k: usize = 0;
    while k < 500
        invariant
            k <= 500,
            v@.len() == 5 * k,
            forall|i: int| 0 <= i < v@.len() ==> #[trigger] v@[i] == sample_unit()[i % 5],
        decreases 500 - k,
    {
        let ghost old_v = v@;
        v.push('a');
        v.push('b');
        v.push('c');
        v.push('d');
        v.push(' ');
        assert forall|i: int| 0 <= i < v@.len() implies #[trigger] v@[i] == sample_unit()[i % 5] by {
            reveal_strlit("abcd ");
            assert(sample_unit() =~= seq!['a', 'b', 'c', 'd', ' ']);
            if i < old_v.len() {
                assert(v@[i] == old_v[i]);
            } else {
                assert(i - 5 * k < 5);
                assert(i % 5 == i - 5 * k) by (nonlinear_arith)
                    requires
                        5 * k <= i < 5 * k + 5,
                ;
            }
        }
        k = k + 1;
    }
    string_of(&v)
}

} // verus!
