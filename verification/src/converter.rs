use vstd::prelude::*;

use crate::chars::{chars_of, string_of};
use crate::dict::{fmm, lemma_fmm_no_key, lemma_fmm_whole_key, no_key_in, parse_dict, table_ok, DictPass};

verus! {

/// A phrase table with the length of its longest key.
pub type Table = (Map<Seq<char>, Seq<char>>, nat);

/// One pass of forward maximum matching with table `t`.
pub open spec fn convert_pass(t: Table, s: Seq<char>) -> Seq<char> {
    fmm(t.0, t.1 as int, s, 0)
}

/// The passes applied one after the other, the first pass first.
pub open spec fn convert_chain(passes: Seq<Table>, s: Seq<char>) -> Seq<char>
    decreases passes.len(),
{
    if passes.len() == 0 {
        s
    } else {
        convert_chain(passes.drop_first(), convert_pass(passes[0], s))
    }
}

/// A text in which no key of any pass occurs comes out of the chain unchanged.
pub proof fn lemma_chain_no_key(passes: Seq<Table>, s: Seq<char>)
    requires
        forall|k: int| 0 <= k < passes.len() ==> no_key_in(#[trigger] passes[k].0, passes[k].1 as int, s, 0),
    ensures
        convert_chain(passes, s) == s,
    decreases passes.len(),
{
    if passes.len() > 0 {
        lemma_fmm_no_key(passes[0].0, passes[0].1 as int, s, 0);
        assert(s.subrange(0, s.len() as int) =~= s);
        assert forall|k: int| 0 <= k < passes.drop_first().len() implies no_key_in(
            #[trigger] passes.drop_first()[k].0,
            passes.drop_first()[k].1 as int,
            s,
            0,
        ) by {
            assert(passes.drop_first()[k] == passes[k + 1]);
        }
        lemma_chain_no_key(passes.drop_first(), s);
    }
}

/// A pass over a key of its table, read on its own, gives the key's value.
pub proof fn lemma_pass_converts_key(t: Table, k: Seq<char>)
    requires
        table_ok(t.0, t.1),
        t.0.contains_key(k),
    ensures
        convert_pass(t, k) == t.0[k],
{
    lemma_fmm_whole_key(t.0, t.1 as int, k);
}

/// The text of the first pass: the phrase dictionary, a line break, and the
/// character dictionary, read as one table (a character entry overrides a
/// phrase entry with the same key; longer phrases still win by matching).
pub open spec fn first_pass_text(st_phrases: Seq<char>, st_characters: Seq<char>) -> Seq<char> {
    st_phrases + seq!['\n'] + st_characters
}

/// Simplified to Traditional (Taiwan) conversion: a chain of phrase-table
/// passes, each segmenting its input by forward maximum matching.
pub struct Converter {
    passes: Vec<DictPass>,
}

impl Converter {
    #[verifier::type_invariant]
    spec fn passes_wf(self) -> bool {
        forall|i: int| 0 <= i < self.passes@.len() ==> (#[trigger] self.passes@[i]).wf()
    }

    /// The tables of the passes, in the order they are applied.
    pub closed spec fn tables(self) -> Seq<Table> {
        self.passes@.map_values(|p: DictPass| (p.table(), p.max_len()))
    }

    /// What `convert` makes of `s`.
    pub open spec fn spec_convert(self, s: Seq<char>) -> Seq<char> {
        convert_chain(self.tables(), s)
    }

    /// Builds the three-pass chain from the dictionary texts: phrases and
    /// characters (Simplified to Traditional) as one pass, then Taiwan
    /// phrases, then Taiwan variants.
    pub fn new(st_phrases: &str, st_characters: &str, tw_phrases: &str, tw_variants: &str) -> (c:
        Converter)
        ensures
            c.tables() == seq![
                parse_dict(first_pass_text(st_phrases@, st_characters@)),
                parse_dict(tw_phrases@),
                parse_dict(tw_variants@),
            ],
    {
        let mut pass1_text = chars_of(st_phrases);
        pass1_text.push('\n');
        let st_chars = chars_of(st_characters);
        crate::chars::append_chars(&mut pass1_text, &st_chars);
        assert(pass1_text@ == first_pass_text(st_phrases@, st_characters@));
        let p1 = DictPass::from_text(&pass1_text);
        let p2 = DictPass::from_text(&chars_of(tw_phrases));
        let p3 = DictPass::from_text(&chars_of(tw_variants));
        let mut passes: Vec<DictPass> = Vec::new();
        passes.push(p1);
        passes.push(p2);
        passes.push(p3);
        let c = Converter { passes };
        assert(c.tables() =~= seq![
            parse_dict(first_pass_text(st_phrases@, st_characters@)),
            parse_dict(tw_phrases@),
            parse_dict(tw_variants@),
        ]);
        c
    }

    /// Converts `input` through every pass in turn.
    pub fn convert(&self, input: &str) -> (out: String)
        ensures
            out@ == self.spec_convert(input@),
    {
        let text = self.convert_chars(&chars_of(input));
        string_of(&text)
    }

    /// Converts the characters of `input` through every pass in turn.
    pub fn convert_chars(&self, input: &[char]) -> (out: Vec<char>)
        ensures
            out@ == self.spec_convert(input@),
    {
        proof {
            use_type_invariant(self);
        }
        let mut text = crate::chars::chars_range(input, 0, input.len());
        assert(input@.subrange(0, input@.len() as int) =~= input@);
        let mut k: usize = 0;
        assert(self.tables().skip(0) =~= self.tables());
        while k < self.passes.len()
            invariant
                k <= self.passes@.len(),
                forall|i: int| 0 <= i < self.passes@.len() ==> (#[trigger] self.passes@[i]).wf(),
                self.spec_convert(input@) == convert_chain(self.tables().skip(k as int), text@),
                self.spec_convert(input@) == convert_chain(self.tables(), input@),
            decreases self.passes.len() - k,
        {
            let ghost rest = self.tables().skip(k as int);
            assert(rest[0] == (self.passes@[k as int].table(), self.passes@[k as int].max_len()));
            assert(rest.drop_first() =~= self.tables().skip(k + 1));
            text = self.passes[k].convert(&text);
            k = k + 1;
        }
        assert(self.tables().skip(k as int) =~= Seq::<Table>::empty());
        text
    }
}

} // verus!
