use vstd::prelude::*;

use crate::strset::TextSet;
use crate::text::views;

verus! {

/// The three kinds of C nominal type.
#[derive(Debug, Clone, Copy, PartialEq, Eq, Structural)]
pub enum TypeSort {
    Typedef,
    Struct,
    Union,
}

/// What the parser reports of a type declaration: its kind and the traits it derives.
#[derive(Debug, Clone)]
pub struct TypeInfo {
    pub sort: TypeSort,
    pub derives: TextSet,
}

/// What the parser reports of a function: its printable signature, and a structural shape
/// of it (with its parameter count) that serves as a key for telling signatures apart.
#[derive(Debug, Clone)]
pub struct FnInfo {
    pub signature: String,
    pub shape: String,
    pub params: usize,
}

/// The kind of a top-level declaration of the target language.
#[derive(Debug, Clone)]
pub enum ItemSort {
    Type(TypeInfo),
    Variable,
    Function(FnInfo),
    Use,
}

/// One top-level declaration, with the three renderings of it that the engine uses: the
/// full text, the shape alone (for prompts), and the text compiled as context for others.
#[derive(Debug, Clone)]
pub struct ParsedItem {
    pub name: String,
    pub sort: ItemSort,
    pub code: String,
    pub simple_code: String,
    pub checking_code: String,
}

/// The attribute line that derives `ds`, empty where there is none.
pub open spec fn derive_attr(ds: Seq<Seq<char>>) -> Seq<char> {
    if ds.len() == 0 {
        Seq::empty()
    } else {
        "#[derive("@ + joined_with(ds, ", "@) + ")]\n"@
    }
}

/// `parts` joined with `sep` between two neighbours.
pub open spec fn joined_with(parts: Seq<Seq<char>>, sep: Seq<char>) -> Seq<char>
    decreases parts.len(),
{
    if parts.len() == 0 {
        Seq::empty()
    } else if parts.len() == 1 {
        parts[0]
    } else {
        joined_with(parts.drop_last(), sep) + sep + parts.last()
    }
}

impl ParsedItem {
    /// A type's derives are kept as an ordered set.
    pub open spec fn wf(&self) -> bool {
        match self.sort {
            ItemSort::Type(t) => t.derives.wf(),
            _ => true,
        }
    }

    pub open spec fn is_type(&self) -> bool {
        self.sort is Type
    }

    pub open spec fn is_variable(&self) -> bool {
        self.sort is Variable
    }

    pub open spec fn is_use(&self) -> bool {
        self.sort is Use
    }

    /// The attribute line in front of each rendering: a type's derives, else nothing.
    pub open spec fn attr(&self) -> Seq<char> {
        match self.sort {
            ItemSort::Type(t) => derive_attr(t.derives.view_seq()),
            _ => Seq::empty(),
        }
    }

    pub open spec fn full_text(&self) -> Seq<char> {
        self.attr() + self.code@
    }

    pub open spec fn simple_text(&self) -> Seq<char> {
        self.attr() + self.simple_code@
    }

    pub open spec fn checking_text(&self) -> Seq<char> {
        self.attr() + self.checking_code@
    }

    fn attr_string(&self) -> (r: String)
        ensures
            r@ == self.attr(),
    {
        match &self.sort {
            ItemSort::Type(t) => derive_line(&t.derives),
            _ => String::new(),
        }
    }

    /// The full text of the item.
    pub fn get_code(&self) -> (r: String)
        ensures
            r@ == self.full_text(),
    {
        let a = self.attr_string();
        a.concat(self.code.as_str())
    }

    /// The shape of the item alone.
    pub fn get_simple_code(&self) -> (r: String)
        ensures
            r@ == self.simple_text(),
    {
        let a = self.attr_string();
        a.concat(self.simple_code.as_str())
    }

    /// The text of the item compiled as context for later items.
    pub fn get_checking_code(&self) -> (r: String)
        ensures
            r@ == self.checking_text(),
    {
        let a = self.attr_string();
        a.concat(self.checking_code.as_str())
    }
}

/// Whether `b` renders exactly as `a` and is of the same kind.
pub open spec fn same_item(a: ParsedItem, b: ParsedItem) -> bool {
    &&& a.name@ == b.name@
    &&& a.full_text() == b.full_text()
    &&& a.simple_text() == b.simple_text()
    &&& a.checking_text() == b.checking_text()
    &&& a.is_type() == b.is_type()
    &&& a.is_variable() == b.is_variable()
    &&& a.is_use() == b.is_use()
    &&& (a.wf() ==> b.wf())
}

impl ParsedItem {
    /// A copy of the item.
    pub fn duplicate(&self) -> (r: ParsedItem)
        ensures
            same_item(*self, r),
    {
        let sort = match &self.sort {
            ItemSort::Type(t) => ItemSort::Type(TypeInfo { sort: t.sort, derives: t.derives.copy() }),
            ItemSort::Variable => ItemSort::Variable,
            ItemSort::Function(f) => ItemSort::Function(
                FnInfo { signature: f.signature.clone(), shape: f.shape.clone(), params: f.params },
            ),
            ItemSort::Use => ItemSort::Use,
        };
        ParsedItem {
            name: self.name.clone(),
            sort,
            code: self.code.clone(),
            simple_code: self.simple_code.clone(),
            checking_code: self.checking_code.clone(),
        }
    }
}

/// Renders the derive attribute for the traits of `ds`.
pub fn derive_line(ds: &TextSet) -> (r: String)
    ensures
        r@ == derive_attr(ds.view_seq()),
{
    if ds.items.len() == 0 {
        return String::new();
    }
    let sep = ", ";
    let mut r = String::from_str("#[derive(");
    let mut i: usize = 0;
    while i < ds.items.len()
        invariant
            0 < ds.items@.len(),
            i <= ds.items@.len(),
            r@ == "#[derive("@ + joined_with(views(ds.items@.subrange(0, i as int)), sep@),
        decreases ds.items@.len() - i,
    {
        proof {
            assert(views(ds.items@.subrange(0, i + 1)).drop_last() =~= views(ds.items@.subrange(0, i as int)));
        }
        if i > 0 {
            r.append(sep);
        }
        proof {
            if i == 0 {
                assert(joined_with(views(ds.items@.subrange(0, 0)), sep@) =~= Seq::<char>::empty());
            }
        }
        r.append(ds.items[i].as_str());
        proof {
            if i == 0 {
                assert(r@ =~= "#[derive("@ + joined_with(views(ds.items@.subrange(0, 1)), sep@));
            } else {
                assert(r@ =~= "#[derive("@ + joined_with(views(ds.items@.subrange(0, i + 1)), sep@));
            }
        }
        i = i + 1;
    }
    proof {
        assert(ds.items@.subrange(0, ds.items@.len() as int) =~= ds.items@);
    }
    r.append(")]\n");
    r
}

} // verus!
