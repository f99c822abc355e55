use vstd::prelude::*;
use crate::scan::{views_of, markers_of, markers, parse_each_blocks, EachBlock};
use crate::combine::{combinations, combination_views, value_lists, generate_combinations};
use crate::render::{render, replace_each_blocks, lemma_markers_placed};

verus! {

/// Every output text of the template `text`, one per combination of its
/// markers' values, in combination order.
pub open spec fn expansion(text: Seq<u8>) -> Seq<Seq<u8>> {
    let ms = markers(text);
    combinations(value_lists(ms)).map_values(|c: Seq<Seq<u8>>| render(text, ms, c))
}

/// A template text together with the markers found in it.
pub struct Template {
    pub content: Vec<u8>,
    pub blocks: Vec<EachBlock>,
}

impl Template {
    /// The blocks are exactly the markers of the content.
    pub open spec fn wf(&self) -> bool {
        markers_of(self.blocks@) == markers(self.content@)
    }

    /// Reads the markers of `content`.
    pub fn parse(content: &[u8]) -> (r: Template)
        ensures
            r.wf(),
            r.content@ == content@,
    {
        let blocks = parse_each_blocks(content);
        let mut copy: Vec<u8> = Vec::new();
        crate::render::copy_range(content, 0, content.len(), &mut copy);
        assert(copy@ =~= content@);
        Template { content: copy, blocks }
    }

    /// Every combination of the markers' values, first marker slowest.
    pub fn combinations(&self) -> (r: Vec<Vec<Vec<u8>>>)
        requires
            self.wf(),
        ensures
            combination_views(r@) == combinations(value_lists(markers(self.content@))),
    {
        generate_combinations(self.blocks.as_slice())
    }

    /// The output text for one combination: each marker replaced by the
    /// value at its position.
    pub fn render(&self, combination: &[Vec<u8>]) -> (r: Vec<u8>)
        requires
            self.wf(),
            combination@.len() == self.blocks@.len(),
        ensures
            r@ == render(self.content@, markers(self.content@), views_of(combination@)),
    {
        proof {
            lemma_markers_placed(self.content@);
        }
        replace_each_blocks(self.content.as_slice(), combination, self.blocks.as_slice())
    }
}

} // verus!
