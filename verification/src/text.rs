use vstd::prelude::*;
use vstd::string::*;

verus! {

/// The characters of an optional text.
pub open spec fn optional_text(text: Option<String>) -> Option<Seq<char>> {
    match text {
        Some(s) => Some(s@),
        None => None,
    }
}

/// The characters of each text of a list.
pub open spec fn text_list(texts: Seq<String>) -> Seq<Seq<char>> {
    texts.map_values(|s: String| s@)
}

/// The characters of an optional list of texts.
pub open spec fn optional_text_list(texts: Option<Vec<String>>) -> Option<Seq<Seq<char>>> {
    match texts {
        Some(v) => Some(text_list(v@)),
        None => None,
    }
}

/// The mark that begins every link which stands for a bank's transaction identifier.
pub open spec fn id_prefix() -> Seq<char> {
    seq!['i', 'd', '-']
}

/// Whether a link stands for a bank's transaction identifier.
pub open spec fn has_id_prefix(link: Seq<char>) -> bool {
    id_prefix().is_prefix_of(link)
}

/// The link under which a bank's transaction identifier is kept in the ledger.
pub open spec fn link_of(identifier: Seq<char>) -> Seq<char> {
    id_prefix() + identifier
}

/// What separates the parts of a narration.
pub open spec fn separator() -> Seq<char> {
    seq![',', ' ']
}

/// The parts in order, with a comma and a space between each two.
pub open spec fn joined(parts: Seq<Seq<char>>) -> Seq<char>
    decreases parts.len(),
{
    if parts.len() == 0 {
        Seq::empty()
    } else if parts.len() == 1 {
        parts[0]
    } else {
        joined(parts.drop_last()) + separator() + parts.last()
    }
}

/// A copy of an optional text.
pub fn copy_optional_text(text: &Option<String>) -> (r: Option<String>)
    ensures
        optional_text(r) == optional_text(*text),
{
    match text {
        Some(s) => Some(s.clone()),
        None => None,
    }
}

/// Whether a link begins with `id-`.
pub fn is_id_link(link: &str) -> (r: bool)
    ensures
        r == has_id_prefix(link@),
{
    let n = link.unicode_len();
    if n < 3 {
        return false;
    }
    let found = link.get_char(0) == 'i' && link.get_char(1) == 'd' && link.get_char(2) == '-';
    proof {
        if found {
            assert(link@.subrange(0, 3) =~= id_prefix());
        }
        if has_id_prefix(link@) {
            assert(link@[0] == id_prefix()[0]);
            assert(link@[1] == id_prefix()[1]);
            assert(link@[2] == id_prefix()[2]);
        }
    }
    found
}

/// The link `id-` followed by the identifier.
pub fn make_link(identifier: &str) -> (r: String)
    ensures
        r@ == link_of(identifier@),
{
    let mut link = String::from_str("id-");
    proof {
        reveal_strlit("id-");
        assert("id-"@ =~= id_prefix());
    }
    link.append(identifier);
    link
}

/// The parts joined by a comma and a space.
pub fn join(parts: &Vec<String>) -> (r: String)
    ensures
        r@ == joined(text_list(parts@)),
{
    let mut out = String::new();
    let mut i: usize = 0;
    while i < parts.len()
        invariant
            i <= parts.len(),
            out@ == joined(text_list(parts@).take(i as int)),
        decreases parts.len() - i,
    {
        proof {
            let all = text_list(parts@);
            assert(all.take(i as int + 1).drop_last() =~= all.take(i as int));
            assert(all.take(i as int + 1).last() == parts@[i as int]@);
            reveal_strlit(", ");
            assert(", "@ =~= separator());
        }
        if i > 0 {
            out.append(", ");
            out.append(parts[i].as_str());
        } else {
            out.append(parts[i].as_str());
            assert(out@ =~= parts@[0]@);
        }
        i += 1;
    }
    assert(text_list(parts@).take(parts@.len() as int) =~= text_list(parts@));
    out
}

} // verus!
