//! The catalog data model: books and their tags.
//!
//! These records are produced by the catalog store and are read-only to the
//! search pipeline.  Each type has a mathematical view so that contracts can
//! speak about its contents.

use vstd::prelude::*;

verus! {

/// A tag attached to a book; only the name takes part in vectorization.
pub struct Tag {
    pub id: i32,
    pub name: String,
}

/// One catalog entry as the store hands it out.
pub struct Book {
    pub id: i32,
    pub title: String,
    pub author: String,
    pub desc: String,
    pub tags: Vec<Tag>,
    pub year: String,
    pub cover: String,
}

#[verifier::ext_equal]
pub ghost struct TagView {
    pub id: int,
    pub name: Seq<char>,
}

#[verifier::ext_equal]
pub ghost struct BookView {
    pub id: int,
    pub title: Seq<char>,
    pub author: Seq<char>,
    pub desc: Seq<char>,
    pub tags: Seq<TagView>,
    pub year: Seq<char>,
    pub cover: Seq<char>,
}

impl View for Tag {
    type V = TagView;

    open spec fn view(&self) -> TagView {
        TagView { id: self.id as int, name: self.name@ }
    }
}

impl View for Book {
    type V = BookView;

    open spec fn view(&self) -> BookView {
        BookView {
            id: self.id as int,
            title: self.title@,
            author: self.author@,
            desc: self.desc@,
            tags: self.tags@.map_values(|t: Tag| t@),
            year: self.year@,
            cover: self.cover@,
        }
    }
}

impl Clone for Tag {
    fn clone(&self) -> (res: Self)
        ensures
            res@ == self@,
    {
        Tag { id: self.id, name: self.name.clone() }
    }
}

impl Clone for Book {
    fn clone(&self) -> (res: Self)
        ensures
            res@ == self@,
    {
        let mut tags: Vec<Tag> = Vec::new();
        let mut i: usize = 0;
        while i < self.tags.len()
            invariant
                i <= self.tags@.len(),
                tags@.len() == i,
                forall|j: int| 0 <= j < i ==> tags@[j]@ == self.tags@[j]@,
            decreases self.tags@.len() - i,
        {
            tags.push(self.tags[i].clone());
            i += 1;
        }
        let res = Book {
            id: self.id,
            title: self.title.clone(),
            author: self.author.clone(),
            desc: self.desc.clone(),
            tags,
            year: self.year.clone(),
            cover: self.cover.clone(),
        };
        proof {
            assert(res@.tags =~= self@.tags);
            assert(res@ =~= self@);
        }
        res
    }
}

} // verus!
