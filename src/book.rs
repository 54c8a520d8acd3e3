//! The document tree and the pass that rewrites the chapters in it.
use vstd::prelude::*;
use crate::CompileOutputPreprocessor;
use crate::rewrite::{
    collect_steps, content_steps, lemma_no_markers_normalized, lemma_rendered_uses_prefix, lines_of,
    normalized, rewrite_content, rewritten, texts,
};

verus! {

/// A chapter: its text, whether it is a draft (no source file), and the items nested in it.
pub struct Chapter {
    pub content: String,
    pub draft: bool,
    pub sub_items: Vec<BookItem>,
}

/// An entry of the document tree.
pub enum BookItem {
    Chapter(Chapter),
    Separator,
    PartTitle(String),
}

/// The document tree: its top-level items in order.
pub struct Book {
    pub sections: Vec<BookItem>,
}

/// The step names of a chapter's own text: none for a draft.
pub open spec fn own_steps(ch: Chapter) -> Seq<Seq<char>> {
    if ch.draft {
        Seq::empty()
    } else {
        content_steps(ch.content@)
    }
}

/// The step names that a pass over `item` meets, in document order: those of the chapter's own
/// text first, then those of the items nested in it.
pub open spec fn item_steps(item: BookItem) -> Seq<Seq<char>>
    decreases item,
{
    match item {
        BookItem::Chapter(ch) => own_steps(ch) + items_steps(ch.sub_items@),
        _ => Seq::empty(),
    }
}

/// The step names that a pass over `items` meets, item after item.
pub open spec fn items_steps(items: Seq<BookItem>) -> Seq<Seq<char>>
    decreases items,
{
    if items.len() == 0 {
        Seq::empty()
    } else {
        items_steps(items.drop_last()) + item_steps(items.last())
    }
}

/// `new` is `old` after a pass that rewrote its chapters with the step outputs `outs`.
pub open spec fn item_rewritten(old: BookItem, new: BookItem, outs: Seq<Seq<char>>) -> bool
    decreases old,
{
    match old {
        BookItem::Chapter(a) => match new {
            BookItem::Chapter(b) => {
                let k = own_steps(a).len() as int;
                &&& b.draft == a.draft
                &&& b.content@ == if a.draft {
                    a.content@
                } else {
                    rewritten(a.content@, outs.take(k))
                }
                &&& items_rewritten(a.sub_items@, b.sub_items@, outs.skip(k))
            },
            _ => false,
        },
        BookItem::Separator => new is Separator,
        BookItem::PartTitle(t) => new matches BookItem::PartTitle(u) && u@ == t@,
    }
}

/// `new` is `old` after a pass that rewrote the chapters of each item in turn, the step outputs
/// `outs` handed out in the order of `items_steps(old)`.
pub open spec fn items_rewritten(old: Seq<BookItem>, new: Seq<BookItem>, outs: Seq<Seq<char>>) -> bool
    decreases old,
{
    &&& old.len() == new.len()
    &&& old.len() > 0 ==> {
        let m = items_steps(old.drop_last()).len() as int;
        &&& items_rewritten(old.drop_last(), new.drop_last(), outs.take(m))
        &&& item_rewritten(old.last(), new.last(), outs.skip(m))
    }
}

proof fn lemma_items_steps_prefix(items: Seq<BookItem>, i: int, j: int)
    requires
        0 <= i <= j <= items.len(),
    ensures
        items_steps(items.take(i)).len() <= items_steps(items.take(j)).len(),
    decreases j - i,
{
    if i < j {
        lemma_items_steps_prefix(items, i, j - 1);
        assert(items.take(j).drop_last() =~= items.take(j - 1));
    }
}

/// Appends the step names met in `items` to `names`.
fn collect_items_steps(items: &Vec<BookItem>, names: &mut Vec<String>)
    ensures
        texts(final(names)@) == texts(old(names)@) + items_steps(items@),
    decreases items@,
{
    assert(items@.take(0) =~= Seq::<BookItem>::empty());
    assert(texts(names@) =~= texts(names@) + Seq::<Seq<char>>::empty());
    for i in 0..items.len()
        invariant
            texts(names@) == texts(old(names)@) + items_steps(items@.take(i as int)),
    {
        assert(items@.take(i + 1).drop_last() =~= items@.take(i as int));
        let ghost before = texts(names@);
        match &items[i] {
            BookItem::Chapter(ch) => {
                assert(decreases_to!(items@ => ch.sub_items@)) by {
                    assert(decreases_to!(items@ => items@[i as int]));
                };
                if !ch.draft {
                    collect_steps(ch.content.as_str(), names);
                }
                collect_items_steps(&ch.sub_items, names);
                assert(texts(names@) =~= before + item_steps(items@[i as int]));
            },
            _ => {
                assert(texts(names@) =~= before + item_steps(items@[i as int]));
            },
        }
    }
    assert(items@.take(items@.len() as int) =~= items@);
}

/// `items` with the chapters rewritten, the markers met taking `outputs[from..]` in turn; also
/// the position after the last output taken.
#[verifier::loop_isolation(false)]
fn rewrite_items(items: &Vec<BookItem>, outputs: &Vec<String>, from: usize) -> (r: (
    Vec<BookItem>,
    usize,
))
    requires
        from + items_steps(items@).len() <= outputs@.len(),
    ensures
        r.1 == from + items_steps(items@).len(),
        items_rewritten(items@, r.0@, texts(outputs@).subrange(from as int, r.1 as int)),
    decreases items@,
{
    let ghost o = texts(outputs@);
    let mut out: Vec<BookItem> = Vec::new();
    let mut pos: usize = from;
    let total = outputs.len();
    assert(items@.take(0) =~= Seq::<BookItem>::empty());
    for i in 0..items.len()
        invariant
            out@.len() == i,
            pos == from + items_steps(items@.take(i as int)).len(),
            items_rewritten(items@.take(i as int), out@, o.subrange(from as int, pos as int)),
    {
        proof {
            lemma_items_steps_prefix(items@, i + 1, items@.len() as int);
            assert(items@.take(items@.len() as int) =~= items@);
            assert(items@.take(i + 1).drop_last() =~= items@.take(i as int));
            assert(items@.take(i + 1).last() == items@[i as int]);
            assert(items_steps(items@.take(i + 1)) == items_steps(items@.take(i as int))
                + item_steps(items@[i as int]));
        }
        let ghost p0 = pos;
        let new_item = match &items[i] {
            BookItem::Chapter(ch) => {
                assert(decreases_to!(items@ => ch.sub_items@)) by {
                    assert(decreases_to!(items@ => items@[i as int]));
                };
                assert(item_steps(items@[i as int]) == own_steps(*ch) + items_steps(ch.sub_items@));
                let (content, p1) = if ch.draft {
                    (ch.content.clone(), pos)
                } else {
                    let (c, n) = rewrite_content(ch.content.as_str(), outputs, pos);
                    proof {
                        lemma_rendered_uses_prefix(lines_of(ch.content@), o.skip(p0 as int), n as int);
                        assert(o.skip(p0 as int).take(n as int) =~= o.subrange(p0 as int, p0 + n));
                    }
                    assert(pos + n <= total);
                    (c, pos + n)
                };
                let (subs, p2) = rewrite_items(&ch.sub_items, outputs, p1);
                let ghost q = o.subrange(p0 as int, p2 as int);
                assert(q.take(p1 - p0) =~= o.subrange(p0 as int, p1 as int));
                assert(q.skip(p1 - p0) =~= o.subrange(p1 as int, p2 as int));
                pos = p2;
                BookItem::Chapter(Chapter { content, draft: ch.draft, sub_items: subs })
            },
            BookItem::Separator => BookItem::Separator,
            BookItem::PartTitle(t) => BookItem::PartTitle(t.clone()),
        };
        let ghost prev = out@;
        out.push(new_item);
        proof {
            let q = o.subrange(from as int, pos as int);
            assert(out@.drop_last() =~= prev);
            assert(q.take(p0 - from) =~= o.subrange(from as int, p0 as int));
            assert(q.skip(p0 - from) =~= o.subrange(p0 as int, pos as int));
            assert(item_rewritten(items@[i as int], out@.last(), o.subrange(p0 as int, pos as int)));
            assert(items_rewritten(items@.take(i + 1), out@, q));
        }
    }
    assert(items@.take(items@.len() as int) =~= items@);
    (out, pos)
}

/// Why a pass over a book could not be made.
pub enum RunError {
    /// The number of step outputs handed in differs from the number of markers met.
    OutputCountMismatch { markers: usize, outputs: usize },
}

impl Book {
    /// The step names of the markers in the book's non-draft chapters, in document order: a
    /// chapter's own markers, then those of the chapters nested in it, then the next item's.
    pub fn steps(&self) -> (r: Vec<String>)
        ensures
            texts(r@) == items_steps(self.sections@),
    {
        let mut names: Vec<String> = Vec::new();
        collect_items_steps(&self.sections, &mut names);
        assert(texts(Seq::<String>::empty()) + items_steps(self.sections@) =~= items_steps(
            self.sections@,
        ));
        names
    }
}

impl CompileOutputPreprocessor {
    /// The name under which the preprocessor is known.
    pub fn name(&self) -> (r: &'static str)
        ensures
            r@ == "compile-output-preprocessor"@,
    {
        "compile-output-preprocessor"
    }

    /// The book with every non-draft chapter's marker lines replaced by the step outputs, one per
    /// marker, handed out in document order (`book.steps()`): a chapter's own markers before
    /// those of the chapters nested in it.
    pub fn run(&self, book: Book, outputs: &Vec<String>) -> (r: Result<Book, RunError>)
        ensures
            r is Ok <==> outputs@.len() == items_steps(book.sections@).len(),
            r matches Ok(b) ==> items_rewritten(book.sections@, b.sections@, texts(outputs@)),
            r matches Err(e) ==> e == (RunError::OutputCountMismatch {
                markers: items_steps(book.sections@).len() as usize,
                outputs: outputs@.len() as usize,
            }),
    {
        let names = book.steps();
        if names.len() != outputs.len() {
            return Err(RunError::OutputCountMismatch { markers: names.len(), outputs: outputs.len() });
        }
        let (sections, end) = rewrite_items(&book.sections, outputs, 0);
        assert(texts(outputs@).subrange(0, end as int) =~= texts(outputs@));
        Ok(Book { sections })
    }
}

/// Every draft chapter of `new` has the text of its counterpart in `old`, the two trees having
/// the same shape.
pub open spec fn drafts_kept(old: Seq<BookItem>, new: Seq<BookItem>) -> bool
    decreases old,
{
    &&& old.len() == new.len()
    &&& old.len() > 0 ==> {
        &&& drafts_kept(old.drop_last(), new.drop_last())
        &&& match old.last() {
            BookItem::Chapter(a) => match new.last() {
                BookItem::Chapter(b) => {
                    &&& a.draft ==> b.draft && b.content@ == a.content@
                    &&& drafts_kept(a.sub_items@, b.sub_items@)
                },
                _ => false,
            },
            _ => true,
        }
    }
}

/// `new` equals `old` but that the text of each non-draft chapter has its line endings
/// normalised.
pub open spec fn same_but_line_endings(old: Seq<BookItem>, new: Seq<BookItem>) -> bool
    decreases old,
{
    &&& old.len() == new.len()
    &&& old.len() > 0 ==> {
        &&& same_but_line_endings(old.drop_last(), new.drop_last())
        &&& match old.last() {
            BookItem::Chapter(a) => match new.last() {
                BookItem::Chapter(b) => {
                    &&& b.draft == a.draft
                    &&& b.content@ == if a.draft {
                        a.content@
                    } else {
                        normalized(a.content@)
                    }
                    &&& same_but_line_endings(a.sub_items@, b.sub_items@)
                },
                _ => false,
            },
            BookItem::Separator => new.last() is Separator,
            BookItem::PartTitle(t) => new.last() matches BookItem::PartTitle(u) && u@ == t@,
        }
    }
}

/// A pass over a book never changes the text of a draft chapter.
pub proof fn lemma_drafts_untouched(old: Seq<BookItem>, new: Seq<BookItem>, outs: Seq<Seq<char>>)
    requires
        items_rewritten(old, new, outs),
    ensures
        drafts_kept(old, new),
    decreases old,
{
    if old.len() > 0 {
        let m = items_steps(old.drop_last()).len() as int;
        lemma_drafts_untouched(old.drop_last(), new.drop_last(), outs.take(m));
        match old.last() {
            BookItem::Chapter(a) => {
                let q = outs.skip(m);
                let k = own_steps(a).len() as int;
                assert(decreases_to!(old => a.sub_items@)) by {
                    assert(decreases_to!(old => old[old.len() - 1]));
                };
                assert(item_rewritten(old.last(), new.last(), q));
                if let BookItem::Chapter(b) = new.last() {
                    lemma_drafts_untouched(a.sub_items@, b.sub_items@, q.skip(k));
                }
            },
            _ => {},
        }
    }
}

/// On a book without markers a pass changes nothing but the line endings of non-draft chapters.
pub proof fn lemma_no_markers_round_trip(old: Seq<BookItem>, new: Seq<BookItem>, outs: Seq<Seq<char>>)
    requires
        items_rewritten(old, new, outs),
        items_steps(old).len() == 0,
    ensures
        same_but_line_endings(old, new),
    decreases old,
{
    if old.len() > 0 {
        let m = items_steps(old.drop_last()).len() as int;
        lemma_no_markers_round_trip(old.drop_last(), new.drop_last(), outs.take(m));
        assert(item_rewritten(old.last(), new.last(), outs.skip(m)));
        match old.last() {
            BookItem::Chapter(a) => {
                let q = outs.skip(m);
                let k = own_steps(a).len() as int;
                assert(decreases_to!(old => a.sub_items@)) by {
                    assert(decreases_to!(old => old[old.len() - 1]));
                };
                assert(item_rewritten(old.last(), new.last(), q));
                assert(item_steps(old.last()).len() == 0);
                assert(items_steps(a.sub_items@).len() == 0);
                if let BookItem::Chapter(b) = new.last() {
                    lemma_no_markers_round_trip(a.sub_items@, b.sub_items@, q.skip(k));
                    if !a.draft {
                        lemma_no_markers_normalized(a.content@, q.take(k));
                    }
                }
            },
            _ => {},
        }
    }
}

/// A draft chapter's text is never scanned: whatever it holds, none of its lines adds a step to
/// run, so the steps met are those of the chapters nested in it alone.
pub proof fn lemma_draft_text_runs_nothing(ch: Chapter)
    requires
        ch.draft,
    ensures
        item_steps(BookItem::Chapter(ch)) == items_steps(ch.sub_items@),
{
    assert(own_steps(ch) + items_steps(ch.sub_items@) =~= items_steps(ch.sub_items@));
}

} // verus!
