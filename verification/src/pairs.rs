//! Parse nodes as the grammar engine hands them out.

use vstd::prelude::*;
use vstd::string::StringSliceAdditionalSpecFns;
use vstd::utf8::{encode_utf8_valid_utf8, is_char_boundary};
use crate::grammar::Node;
use crate::pratt::Token;
use crate::rule::Rule;
use crate::text::{ascii_before, lemma_ascii_boundary};

verus! {

/// The bytes that a node covers: from `start` up to, not including, `end`.
#[derive(Clone, Copy, Debug, PartialEq, Eq, Structural)]
pub struct Span {
    start: usize,
    end: usize,
}

impl Span {
    /// The offset of the first byte.
    pub closed spec fn spec_start(&self) -> usize {
        self.start
    }

    /// The offset after the last byte.
    pub closed spec fn spec_end(&self) -> usize {
        self.end
    }

    /// The offset of the first byte.
    #[verifier::when_used_as_spec(spec_start)]
    pub fn start(&self) -> (offset: usize)
        ensures
            offset == self.spec_start(),
    {
        self.start
    }

    /// The offset after the last byte.
    #[verifier::when_used_as_spec(spec_end)]
    pub fn end(&self) -> (offset: usize)
        ensures
            offset == self.spec_end(),
    {
        self.end
    }
}

/// A parse node over the text it was matched in.
pub struct Pair<'i> {
    input: &'i str,
    rule: Rule,
    start: usize,
    end: usize,
    inner: Vec<Pair<'i>>,
}

/// The nodes of a run of pairs.
pub open spec fn nodes_of(pairs: Seq<Pair<'_>>) -> Seq<Node> {
    Seq::new(pairs.len(), |k: int| pairs[k]@)
}

impl<'i> View for Pair<'i> {
    type V = Node;

    closed spec fn view(&self) -> Node {
        self.node()
    }
}

impl<'i> Pair<'i> {
    /// The node of the pair: its rule, its span and the nodes inside it.
    spec fn node(self) -> Node
        decreases self,
    {
        Node {
            rule: self.rule,
            start: self.start as int,
            end: self.end as int,
            inner: Seq::new(
                self.inner@.len(),
                |k: int|
                    if 0 <= k < self.inner@.len() {
                        self.inner@[k].node()
                    } else {
                        arbitrary()
                    },
            ),
        }
    }

    /// A pair lies inside its text, no byte of the text up to the pair's
    /// end is outside ASCII, and the pairs inside it are over the same text.
    #[verifier::type_invariant]
    closed spec fn inv(self) -> bool {
        &&& self.start <= self.end <= self.input.spec_bytes().len()
        &&& ascii_before(self.input.spec_bytes(), self.end as int)
        &&& forall|k: int|
            0 <= k < self.inner@.len() ==> (#[trigger] self.inner@[k]).input.spec_bytes()
                == self.input.spec_bytes()
    }

    /// The bytes of the text that the pair was matched in.
    pub closed spec fn source(self) -> Seq<u8> {
        self.input.spec_bytes()
    }

    /// The pair of `rule` over `input[start..end]` with `inner` inside it.
    pub(crate) fn new(
        input: &'i str,
        rule: Rule,
        start: usize,
        end: usize,
        inner: Vec<Pair<'i>>,
    ) -> (pair: Pair<'i>)
        requires
            start <= end <= input.spec_bytes().len(),
            ascii_before(input.spec_bytes(), end as int),
            forall|k: int| 0 <= k < inner@.len() ==> (#[trigger] inner@[k]).source() == input.spec_bytes(),
        ensures
            pair@ == (Node {
                rule,
                start: start as int,
                end: end as int,
                inner: nodes_of(inner@),
            }),
            pair.source() == input.spec_bytes(),
    {
        let pair = Pair { input, rule, start, end, inner };
        assert forall|k: int| 0 <= k < inner@.len() implies pair@.inner[k] == nodes_of(inner@)[k] by {}
        assert(pair@.inner =~= nodes_of(inner@));
        pair
    }

    /// The rule that matched.
    pub fn as_rule(&self) -> (rule: Rule)
        ensures
            rule == self@.rule,
    {
        self.rule
    }

    /// The bytes covered.
    pub fn as_span(&self) -> (span: Span)
        ensures
            span.start() == self@.start,
            span.end() == self@.end,
    {
        Span { start: self.start, end: self.end }
    }

    /// The text covered.
    pub fn as_str(&self) -> (slice: &'i str)
        ensures
            0 <= self@.start <= self@.end <= self.source().len(),
            slice.spec_bytes() == self.source().subrange(self@.start, self@.end),
    {
        proof {
            use_type_invariant(self);
            encode_utf8_valid_utf8(self.input@);
            lemma_ascii_boundary(self.input.spec_bytes(), self.end as int, self.end as int);
        }
        let head: &'i str = self.input.split_at(self.end).0;
        proof {
            encode_utf8_valid_utf8(head@);
            assert(ascii_before(head.spec_bytes(), self.end as int));
            lemma_ascii_boundary(head.spec_bytes(), self.end as int, self.start as int);
        }
        let slice: &'i str = head.split_at(self.start).1;
        assert(slice.spec_bytes() =~= self.source().subrange(self@.start, self@.end));
        slice
    }
}

impl<'i> Pair<'i> {
    /// The pair as a token: its rule and its span, which is a slice of
    /// the text.
    pub(crate) fn token(&self) -> (token: Token)
        ensures
            token.rule == self@.rule,
            token.start == self@.start,
            token.end == self@.end,
            token.start <= token.end,
            is_char_boundary(self.source(), token.start as int),
            is_char_boundary(self.source(), token.end as int),
    {
        proof {
            use_type_invariant(self);
            encode_utf8_valid_utf8(self.input@);
            lemma_ascii_boundary(self.input.spec_bytes(), self.end as int, self.start as int);
            lemma_ascii_boundary(self.input.spec_bytes(), self.end as int, self.end as int);
        }
        Token { rule: self.rule, start: self.start, end: self.end }
    }

    /// The pairs matched inside this one.
    pub fn inner(&self) -> (list: &Vec<Pair<'i>>)
        ensures
            nodes_of(list@) == self@.inner,
            forall|k: int| 0 <= k < list@.len() ==> (#[trigger] list@[k]).source() == self.source(),
            decreases_to!(*self => *list),
    {
        proof {
            use_type_invariant(self);
            assert(self@.inner =~= nodes_of(self.inner@));
        }
        &self.inner
    }

    /// The pairs matched inside this one, as a run of their own.
    pub fn into_inner(self) -> (pairs: Pairs<'i>)
        ensures
            pairs@ == self@.inner,
            pairs.source() == self.source(),
    {
        proof {
            use_type_invariant(&self);
            assert(self@.inner =~= nodes_of(self.inner@));
        }
        Pairs { input: self.input, items: self.inner }
    }
}

/// A run of pairs over one text, handed out from the front.
pub struct Pairs<'i> {
    input: &'i str,
    items: Vec<Pair<'i>>,
}

impl<'i> View for Pairs<'i> {
    type V = Seq<Node>;

    closed spec fn view(&self) -> Seq<Node> {
        nodes_of(self.items@)
    }
}

impl<'i> Pairs<'i> {
    /// The pairs are over the text of the run.
    #[verifier::type_invariant]
    closed spec fn inv(self) -> bool {
        forall|k: int|
            0 <= k < self.items@.len() ==> (#[trigger] self.items@[k]).source()
                == self.input.spec_bytes()
    }

    /// The bytes of the text that the pairs were matched in.
    pub closed spec fn source(self) -> Seq<u8> {
        self.input.spec_bytes()
    }

    /// The run of `items` over `input`.
    pub(crate) fn new(input: &'i str, items: Vec<Pair<'i>>) -> (pairs: Pairs<'i>)
        requires
            forall|k: int| 0 <= k < items@.len() ==> (#[trigger] items@[k]).source() == input.spec_bytes(),
        ensures
            pairs@ == nodes_of(items@),
            pairs.source() == input.spec_bytes(),
    {
        Pairs { input, items }
    }

    /// How many pairs are left.
    pub fn len(&self) -> (n: usize)
        ensures
            n == self@.len(),
    {
        self.items.len()
    }

    /// Takes the first pair out of the run.
    pub fn next(&mut self) -> (first: Option<Pair<'i>>)
        ensures
            final(self).source() == old(self).source(),
            old(self)@.len() == 0 ==> first is None && final(self)@ == old(self)@,
            old(self)@.len() > 0 ==> first is Some && first->0@ == old(self)@[0]
                && first->0.source() == old(self).source()
                && final(self)@ == old(self)@.drop_first(),
    {
        proof {
            use_type_invariant(&*self);
        }
        let mut items: Vec<Pair<'i>> = Vec::new();
        core::mem::swap(&mut self.items, &mut items);
        if items.len() == 0 {
            assert(nodes_of(self.items@) =~= nodes_of(old(self).items@));
            None
        } else {
            let first = items.remove(0);
            self.items = items;
            assert(nodes_of(self.items@) =~= nodes_of(old(self).items@).drop_first());
            Some(first)
        }
    }

    /// The text and the pairs that are left.
    pub(crate) fn into_parts(self) -> (parts: (&'i str, Vec<Pair<'i>>))
        ensures
            parts.0.spec_bytes() == self.source(),
            nodes_of(parts.1@) == self@,
            forall|k: int| 0 <= k < parts.1@.len() ==> (#[trigger] parts.1@[k]).source() == self.source(),
    {
        proof {
            use_type_invariant(&self);
        }
        (self.input, self.items)
    }
}

} // verus!
