//! Reading a comma-separated list of template names.
use vstd::prelude::*;

use crate::text::{lemma_string_views_push, split, split_spec, string_views, trim, trimmed};

verus! {

/// The trimmed pieces of a comma-separated list.
pub open spec fn list_items(input: Seq<char>) -> Seq<Seq<char>> {
    split_spec(input, ',').map_values(|p: Seq<char>| trimmed(p))
}

/// Splits `input` at commas and trims each piece; fails when a piece is empty
/// after trimming.
pub fn parse_languages(input: &str) -> (r: Result<Vec<String>, String>)
    ensures
        (forall|i: int| 0 <= i < list_items(input@).len() ==> list_items(input@)[i].len() > 0)
            ==> (r matches Ok(v) && string_views(v@) == list_items(input@)),
        (exists|i: int| 0 <= i < list_items(input@).len() && list_items(input@)[i].len() == 0)
            ==> (r matches Err(e) && e@ == "empty language in list"@),
{
    let pieces = split(input, ',');
    let ghost items = list_items(input@);
    let mut out: Vec<String> = Vec::new();
    let mut i: usize = 0;
    assert(items.take(0) =~= Seq::<Seq<char>>::empty());
    while i < pieces.len()
        invariant
            i <= pieces.len(),
            items == list_items(input@),
            items.len() == pieces.len(),
            forall|j: int| 0 <= j < pieces.len() ==> items[j] == trimmed(#[trigger] pieces@[j]@),
            string_views(out@) == items.take(i as int),
            forall|j: int| 0 <= j < i ==> items[j].len() > 0,
        decreases pieces.len() - i,
    {
        let piece = trim(pieces[i]);
        if piece.is_empty() {
            return Err("empty language in list".to_owned());
        }
        let owned = piece.to_owned();
        let ghost out0 = out@;
        out.push(owned);
        proof {
            lemma_string_views_push(out0, owned);
            assert(items.take(i + 1) =~= items.take(i as int).push(owned@));
        }
        i = i + 1;
    }
    assert(items.take(i as int) =~= items);
    Ok(out)
}

} // verus!
