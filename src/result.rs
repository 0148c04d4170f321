use vstd::prelude::*;

use crate::item::{ParsedItem, same_item};
use crate::strset::TextSet;
use crate::text::{join_lines, joined, views};

verus! {

/// Which rendering of each item a text is made of.
#[derive(Debug, Clone, Copy, PartialEq, Eq, Structural)]
pub enum Rendering {
    Full,
    Simple,
    Checking,
}

/// The translation of one C declaration: its items, the imports it needs, the diagnostics
/// that repair left, whether it reuses another translation (a typedef of a struct), and
/// whether only a signature could be produced.
#[derive(Debug, Clone)]
pub struct TranslationResult {
    pub items: Vec<ParsedItem>,
    pub uses: TextSet,
    pub errors: usize,
    pub copied: bool,
    pub signature_only: bool,
}

/// The text of one item in the given rendering. A variable that compiles cleanly is
/// compiled as context with its initializer; anything else by its checking text.
pub open spec fn item_text(i: ParsedItem, mode: Rendering, errors: usize) -> Seq<char> {
    match mode {
        Rendering::Full => i.full_text(),
        Rendering::Simple => i.simple_text(),
        Rendering::Checking => if errors == 0 && i.is_variable() {
            i.full_text()
        } else {
            i.checking_text()
        },
    }
}

/// The texts of `items` in the given rendering.
pub open spec fn item_texts(items: Seq<ParsedItem>, mode: Rendering, errors: usize) -> Seq<Seq<char>> {
    items.map_values(|i: ParsedItem| item_text(i, mode, errors))
}

impl TranslationResult {
    /// The result's text in the given rendering: its items, one after another.
    pub open spec fn text(&self, mode: Rendering) -> Seq<char> {
        joined(item_texts(self.items@, mode, self.errors))
    }

    /// A fresh result of `items`, with no imports and no errors.
    pub fn of_items(items: Vec<ParsedItem>, signature_only: bool) -> (r: TranslationResult)
        ensures
            r.items@ == items@,
            r.uses.view_seq().len() == 0,
            r.uses.wf(),
            r.errors == 0,
            !r.copied,
            r.signature_only == signature_only,
    {
        TranslationResult { items, uses: TextSet::new(), errors: 0, copied: false, signature_only }
    }

    fn render(&self, i: &ParsedItem, mode: Rendering) -> (r: String)
        ensures
            r@ == item_text(*i, mode, self.errors),
    {
        match mode {
            Rendering::Full => i.get_code(),
            Rendering::Simple => i.get_simple_code(),
            Rendering::Checking => if self.errors == 0 && matches!(i.sort, crate::item::ItemSort::Variable) {
                i.get_code()
            } else {
                i.get_checking_code()
            },
        }
    }

    /// A copy of the result, marked `copied` as asked.
    pub fn duplicate(&self, copied: bool) -> (r: TranslationResult)
        ensures
            r.items@.len() == self.items@.len(),
            forall|k: int| 0 <= k < self.items@.len() ==> same_item(self.items@[k], #[trigger] r.items@[k]),
            forall|m: Rendering| #[trigger] r.text(m) == self.text(m),
            r.uses.view_seq() == self.uses.view_seq(),
            r.errors == self.errors,
            r.copied == copied,
            r.signature_only == self.signature_only,
    {
        let mut items: Vec<ParsedItem> = Vec::new();
        let mut k: usize = 0;
        while k < self.items.len()
            invariant
                k <= self.items@.len(),
                items@.len() == k,
                forall|j: int| 0 <= j < k ==> same_item(self.items@[j], #[trigger] items@[j]),
            decreases self.items@.len() - k,
        {
            items.push(self.items[k].duplicate());
            k = k + 1;
        }
        let r = TranslationResult {
            items,
            uses: self.uses.copy(),
            errors: self.errors,
            copied,
            signature_only: self.signature_only,
        };
        proof {
            assert forall|m: Rendering| #[trigger] r.text(m) == self.text(m) by {
                assert(item_texts(r.items@, m, r.errors) =~= item_texts(self.items@, m, self.errors));
            }
        }
        r
    }

    /// Renders every item and joins them with newlines.
    pub fn mk_code(&self, mode: Rendering) -> (r: String)
        ensures
            r@ == self.text(mode),
    {
        let mut parts: Vec<String> = Vec::new();
        let mut k: usize = 0;
        while k < self.items.len()
            invariant
                k <= self.items@.len(),
                views(parts@) == item_texts(self.items@.subrange(0, k as int), mode, self.errors),
            decreases self.items@.len() - k,
        {
            let s = self.render(&self.items[k], mode);
            let ghost sv = s@;
            let ghost before = parts@;
            parts.push(s);
            proof {
                assert(views(parts@) =~= views(before).push(sv));
                assert(self.items@.subrange(0, k + 1) =~= self.items@.subrange(0, k as int).push(self.items@[k as int]));
                assert(views(parts@) =~= item_texts(self.items@.subrange(0, k + 1), mode, self.errors));
            }
            k = k + 1;
        }
        proof {
            assert(self.items@.subrange(0, self.items@.len() as int) =~= self.items@);
        }
        join_lines(&parts)
    }

    /// The full text.
    pub fn code(&self) -> (r: String)
        ensures
            r@ == self.text(Rendering::Full),
    {
        self.mk_code(Rendering::Full)
    }

    /// The shapes alone, as given to the model as context.
    pub fn simple_code(&self) -> (r: String)
        ensures
            r@ == self.text(Rendering::Simple),
    {
        self.mk_code(Rendering::Simple)
    }

    /// The text compiled as context for later translations.
    pub fn checking_code(&self) -> (r: String)
        ensures
            r@ == self.text(Rendering::Checking),
    {
        self.mk_code(Rendering::Checking)
    }
}

} // verus!
