//! The text of the registration errors: bullet lists of names, and
//! lists of names each followed by its own bullet list.
use vstd::prelude::*;

verus! {

/// How many spaces stand before each bullet.
pub const ERR_BULLET_SPACES: usize = 4;

/// The characters of each string, in order.
pub open spec fn names_of(v: Seq<String>) -> Seq<Seq<char>> {
    v.map_values(|s: String| s@)
}

/// `s` written `n` times in a row.
pub open spec fn repeat_seq(s: Seq<char>, n: nat) -> Seq<char>
    decreases n,
{
    if n == 0 {
        Seq::empty()
    } else {
        repeat_seq(s, (n - 1) as nat) + s
    }
}

/// One bullet: the indentation, a dash and a space, the item, a newline.
pub open spec fn bullet_line(item: Seq<char>) -> Seq<char> {
    repeat_seq(" "@, ERR_BULLET_SPACES as nat) + "- "@ + item + "\n"@
}

/// The bullets of all items, in order.
pub open spec fn bullet_lines(items: Seq<Seq<char>>) -> Seq<char>
    decreases items.len(),
{
    if items.len() == 0 {
        Seq::empty()
    } else {
        bullet_lines(items.drop_last()) + bullet_line(items.last())
    }
}

/// For each pair: the parent, its children as bullets, then a newline.
pub open spec fn parent_child_lines(pairs: Seq<(Seq<char>, Seq<Seq<char>>)>) -> Seq<char>
    decreases pairs.len(),
{
    if pairs.len() == 0 {
        Seq::empty()
    } else {
        parent_child_lines(pairs.drop_last()) + pairs.last().0 + bullet_lines(pairs.last().1)
            + "\n"@
    }
}

/// The views of a list of (parent, children) pairs.
pub open spec fn pairs_view(v: Seq<(String, Vec<String>)>) -> Seq<(Seq<char>, Seq<Seq<char>>)> {
    v.map_values(|p: (String, Vec<String>)| (p.0@, names_of(p.1@)))
}

/// `s` repeated `n` times.
pub fn repeat_str(s: &str, n: usize) -> (r: String)
    ensures
        r@ == repeat_seq(s@, n as nat),
{
    let mut r = String::new();
    let mut i: usize = 0;
    while i < n
        invariant
            i <= n,
            r@ == repeat_seq(s@, i as nat),
        decreases n - i,
    {
        r.append(s);
        i = i + 1;
    }
    r
}

/// Appends one bullet line per item to `str_to_append_to`.
pub fn write_strs_as_bullets(bullet_strs: &Vec<String>, str_to_append_to: &mut String)
    ensures
        final(str_to_append_to)@ == old(str_to_append_to)@ + bullet_lines(names_of(bullet_strs@)),
{
    let n = bullet_strs.len();
    let mut i: usize = 0;
    while i < n
        invariant
            n == bullet_strs@.len(),
            i <= n,
            str_to_append_to@ == old(str_to_append_to)@ + bullet_lines(
                names_of(bullet_strs@).take(i as int),
            ),
        decreases n - i,
    {
        let indent = repeat_str(" ", ERR_BULLET_SPACES);
        str_to_append_to.append(indent.as_str());
        str_to_append_to.append("- ");
        str_to_append_to.append(bullet_strs[i].as_str());
        str_to_append_to.append("\n");
        proof {
            let items = names_of(bullet_strs@);
            assert(items.take(i + 1).drop_last() =~= items.take(i as int));
            assert(items.take(i + 1).last() == bullet_strs@[i as int]@);
        }
        i = i + 1;
    }
    assert(names_of(bullet_strs@).take(n as int) =~= names_of(bullet_strs@));
}

/// Appends, for each pair, the parent, its children as bullets and a newline.
pub fn append_parent_and_child_elements_to_string(
    par_str_with_bullets: &Vec<(String, Vec<String>)>,
    str_to_append_to: &mut String,
)
    ensures
        final(str_to_append_to)@ == old(str_to_append_to)@ + parent_child_lines(
            pairs_view(par_str_with_bullets@),
        ),
{
    let n = par_str_with_bullets.len();
    let mut i: usize = 0;
    while i < n
        invariant
            n == par_str_with_bullets@.len(),
            i <= n,
            str_to_append_to@ == old(str_to_append_to)@ + parent_child_lines(
                pairs_view(par_str_with_bullets@).take(i as int),
            ),
        decreases n - i,
    {
        let pair = &par_str_with_bullets[i];
        str_to_append_to.append(pair.0.as_str());
        write_strs_as_bullets(&pair.1, str_to_append_to);
        str_to_append_to.append("\n");
        proof {
            let pv = pairs_view(par_str_with_bullets@);
            assert(pv.take(i + 1).drop_last() =~= pv.take(i as int));
            assert(pv.take(i + 1).last() == pv[i as int]);
        }
        i = i + 1;
    }
    assert(pairs_view(par_str_with_bullets@).take(n as int) =~= pairs_view(par_str_with_bullets@));
}

} // verus!
