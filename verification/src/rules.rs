//! The rule set of a scanner: its ordered rules and its keyword table.

use vstd::prelude::*;
use crate::model::{reclassified, Rule};
use crate::token::{same_token, Token, TokenProcess, TokenView};

verus! {

/// The rules that the given pairs of tag and process stand for, in order.
pub open spec fn rules_of<T>(conditionals: Seq<(T, TokenProcess)>) -> Seq<Rule<T>> {
    Seq::new(
        conditionals.len(),
        |i: int| Rule { token_type: conditionals[i].0, matcher: conditionals[i].1@ },
    )
}

/// The mapping from text to tag that the given entries stand for. Where a text
/// occurs more than once, its last entry counts.
pub open spec fn keyword_map<T>(entries: Seq<(String, T)>) -> Map<Seq<char>, T>
    decreases entries.len(),
{
    if entries.len() == 0 {
        Map::empty()
    } else {
        keyword_map(entries.drop_last()).insert(entries.last().0@, entries.last().1)
    }
}

/// The text of entry `i`.
pub open spec fn key_at<T>(entries: Seq<(String, T)>, i: int) -> Seq<char> {
    entries[i].0@
}

/// An entry whose text no later entry repeats decides the tag of its text.
pub proof fn lemma_keyword_found<T>(entries: Seq<(String, T)>, i: int)
    requires
        0 <= i < entries.len(),
        forall|j: int| i < j < entries.len() ==> #[trigger] key_at(entries, j) != key_at(entries, i),
    ensures
        keyword_map(entries).dom().contains(key_at(entries, i)),
        keyword_map(entries)[key_at(entries, i)] == entries[i].1,
    decreases entries.len(),
{
    if i < entries.len() - 1 {
        let front = entries.drop_last();
        assert(key_at(entries, entries.len() - 1) != key_at(entries, i));
        assert forall|j: int| i < j < front.len() implies #[trigger] key_at(front, j) != key_at(front, i) by {
            assert(key_at(entries, j) != key_at(entries, i));
        }
        lemma_keyword_found(front, i);
    }
}

/// A text that no entry holds is no keyword.
pub proof fn lemma_keyword_absent<T>(entries: Seq<(String, T)>, content: Seq<char>)
    requires
        forall|j: int| 0 <= j < entries.len() ==> #[trigger] key_at(entries, j) != content,
    ensures
        !keyword_map(entries).dom().contains(content),
    decreases entries.len(),
{
    if entries.len() > 0 {
        let front = entries.drop_last();
        assert(key_at(entries, entries.len() - 1) != content);
        assert forall|j: int| 0 <= j < front.len() implies #[trigger] key_at(front, j) != content by {
            assert(key_at(entries, j) != content);
        }
        lemma_keyword_absent(front, content);
    }
}

/// The keywords are exactly the texts of the entries: a text is a keyword if and
/// only if some entry holds that very text, character for character.
pub proof fn keywords_are_the_entry_texts<T>(entries: Seq<(String, T)>, content: Seq<char>)
    ensures
        keyword_map(entries).dom().contains(content) <==> exists|i: int|
            0 <= i < entries.len() && #[trigger] key_at(entries, i) == content,
    decreases entries.len(),
{
    if entries.len() > 0 {
        let front = entries.drop_last();
        keywords_are_the_entry_texts(front, content);
        if key_at(entries, entries.len() - 1) == content {
        } else if keyword_map(front).dom().contains(content) {
            let i = choose|i: int| 0 <= i < front.len() && #[trigger] key_at(front, i) == content;
            assert(key_at(entries, i) == content);
        } else {
            assert forall|i: int| 0 <= i < entries.len() implies #[trigger] key_at(entries, i) != content by {
                if i < front.len() {
                    assert(key_at(front, i) != content);
                }
            }
        }
    }
}

/// The fixed configuration of a scanner: the rules in priority order, and the
/// keyword table that reclassifies the tokens they produce.
pub struct LexerData<T: Clone> {
    pub conditionals: Vec<(T, TokenProcess)>,
    pub keywords: Vec<(String, T)>,
}

impl<T: Clone> LexerData<T> {
    /// The rules, in priority order.
    pub open spec fn rules(&self) -> Seq<Rule<T>> {
        rules_of(self.conditionals@)
    }

    /// The keyword table.
    pub open spec fn keyword_table(&self) -> Map<Seq<char>, T> {
        keyword_map(self.keywords@)
    }

    /// A rule set with the given rules and no keywords.
    pub fn new(conditionals: Vec<(T, TokenProcess)>) -> (data: Self)
        ensures
            data.conditionals == conditionals,
            data.keywords@ == Seq::<(String, T)>::empty(),
    {
        Self { conditionals, keywords: Vec::new() }
    }

    /// Gives `token` the tag that the keyword table holds for its text, if it
    /// holds one, and leaves the token as it is otherwise. Text, range and line
    /// never change.
    pub fn reclassify(&self, token: &mut Token<T>)
        ensures
            same_token(
                final(token)@,
                TokenView {
                    token_type: reclassified(
                        self.keyword_table(),
                        old(token)@.content,
                        old(token)@.token_type,
                    ),
                    ..old(token)@
                },
            ),
            !self.keyword_table().dom().contains(old(token)@.content) ==> final(token)@ == old(token)@,
    {
        let content: String = token.content().to_owned();
        let mut i: usize = self.keywords.len();
        while i > 0
            invariant
                i <= self.keywords.len(),
                content@ == token@.content,
                token@ == old(token)@,
                forall|j: int| i <= j < self.keywords.len() ==> #[trigger] key_at(self.keywords@, j) != content@,
            decreases i,
        {
            i -= 1;
            if self.keywords[i].0 == content {
                proof {
                    assert(key_at(self.keywords@, i as int) == content@);
                    lemma_keyword_found(self.keywords@, i as int);
                }
                token.change_type(self.keywords[i].1.clone());
                return ;
            }
        }
        proof {
            lemma_keyword_absent(self.keywords@, content@);
        }
    }
}

} // verus!
