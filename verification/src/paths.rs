//! When two spellings name the same path.

use vstd::prelude::*;

use crate::text::same_text;
use crate::text::texts;

verus! {

/// Which characters stand between two parts of a path.
#[derive(Debug, Clone, Copy, PartialEq, Eq, Structural)]
pub struct Separators {
    pub slash: bool,
    pub backslash: bool,
}

pub open spec fn is_separator(character: char, separators: Separators) -> bool {
    separators.slash && character == '/' || separators.backslash && character == '\\'
}

/// The separators of a system: a slash, and on Windows a backslash too.
pub open spec fn separators_of(windows: bool) -> Separators {
    Separators { slash: true, backslash: windows }
}

/// The pieces between the separators of a path, empty ones too.
pub open spec fn pieces(path: Seq<char>, separators: Separators) -> Seq<Seq<char>>
    decreases path.len(),
{
    if path.len() == 0 {
        seq![Seq::empty()]
    } else {
        let earlier = pieces(path.drop_last(), separators);
        if is_separator(path.last(), separators) {
            earlier.push(Seq::empty())
        } else {
            earlier.drop_last().push(earlier.last().push(path.last()))
        }
    }
}

/// The piece is a part of a path: it is not empty, nor a single dot where dots lead nowhere.
pub open spec fn is_part(piece: Seq<char>, idle_dots: bool) -> bool {
    piece.len() > 0 && !(idle_dots && piece == seq!['.'])
}

/// The pieces that are parts.
pub open spec fn parts_of(pieces: Seq<Seq<char>>, idle_dots: bool) -> Seq<Seq<char>>
    decreases pieces.len(),
{
    if pieces.len() == 0 {
        Seq::empty()
    } else if is_part(pieces.last(), idle_dots) {
        parts_of(pieces.drop_last(), idle_dots).push(pieces.last())
    } else {
        parts_of(pieces.drop_last(), idle_dots)
    }
}

/// A component of a path.
pub enum PathComponent {
    /// The capital letter of a drive of Windows.
    Drive(char),
    /// The name of a server or of a kind of device of Windows.
    Network(Seq<char>),
    /// The start of a path of Windows that is taken literally.
    Verbatim,
    /// The root directory.
    Root,
    /// A single dot at the start.
    Here,
    /// The name of a directory or a file.
    Part(Seq<char>),
}

/// The parts as components.
pub open spec fn as_components(parts: Seq<Seq<char>>) -> Seq<PathComponent> {
    parts.map_values(|part: Seq<char>| PathComponent::Part(part))
}

/// The components of a path without a prefix: the root or a single dot, if it starts so, and
/// its parts. Doubled separators, one at the end and single dots further on add nothing.
pub open spec fn plain_components(path: Seq<char>, windows: bool) -> Seq<PathComponent> {
    let separators = separators_of(windows);
    let found = pieces(path, separators);
    (if path.len() > 0 && is_separator(path[0], separators) {
        seq![PathComponent::Root]
    } else {
        Seq::empty()
    }) + (if found[0] == seq!['.'] {
        seq![PathComponent::Here]
    } else {
        Seq::empty()
    }) + as_components(parts_of(found, true))
}

pub open spec fn is_letter(character: char) -> bool {
    'a' <= character <= 'z' || 'A' <= character <= 'Z'
}

/// The path starts with the letter of a drive of Windows.
pub open spec fn has_drive(path: Seq<char>, windows: bool) -> bool {
    windows && path.len() >= 2 && path[1] == ':' && is_letter(path[0])
}

/// The letter of a drive as a capital.
pub open spec fn drive_letter(character: char) -> char {
    if 'a' <= character <= 'z' {
        (character as u32 - 32) as char
    } else {
        character
    }
}

/// The path of Windows is taken literally: only backslashes separate, single dots count, and the
/// letter of a drive counts as it is written.
pub open spec fn is_verbatim(path: Seq<char>, windows: bool) -> bool {
    windows && path.len() >= 4 && path[0] == '\\' && path[1] == '\\' && path[2] == '?' && path[3]
        == '\\'
}

/// The path of Windows starts with two separators, the name of a server that ends at `end`, and
/// something on it.
pub open spec fn is_network(path: Seq<char>, windows: bool, end: int) -> bool {
    let separators = separators_of(windows);
    &&& windows
    &&& 3 <= end < path.len() - 1
    &&& is_separator(path[0], separators)
    &&& is_separator(path[1], separators)
    &&& forall|i: int| 2 <= i < end ==> !is_separator(#[trigger] path[i], separators)
    &&& is_separator(path[end], separators)
    &&& !is_separator(path[end + 1], separators)
}

/// The components of a path.
pub open spec fn components(path: Seq<char>, windows: bool) -> Seq<PathComponent> {
    if is_verbatim(path, windows) {
        let separators = Separators { slash: false, backslash: true };
        seq![PathComponent::Verbatim] + as_components(
            parts_of(pieces(path.skip(4), separators), false),
        )
    } else if has_drive(path, windows) {
        seq![PathComponent::Drive(drive_letter(path[0]))] + plain_components(
            path.skip(2),
            windows,
        )
    } else if exists|end: int| is_network(path, windows, end) {
        let end = choose|end: int| is_network(path, windows, end);
        seq![PathComponent::Network(path.subrange(2, end))] + plain_components(
            path.skip(end),
            windows,
        )
    } else {
        plain_components(path, windows)
    }
}

/// Both spellings have the same components.
pub open spec fn same_path(a: Seq<char>, b: Seq<char>, windows: bool) -> bool {
    components(a, windows) == components(b, windows)
}

/// The path starts with all components of the directory.
pub open spec fn is_inside(path: Seq<char>, directory: Seq<char>, windows: bool) -> bool {
    let (inner, outer) = (components(path, windows), components(directory, windows));
    outer.len() <= inner.len() && inner.take(outer.len() as int) == outer
}

/// The path is the name of one file in some directory: it neither leaves the directory nor
/// enters another.
pub open spec fn is_plain_name(path: Seq<char>, windows: bool) -> bool {
    let found = components(path, windows);
    found.len() == 1 && match found[0] {
        PathComponent::Part(name) => name != seq!['.', '.'],
        _ => false,
    }
}

/// The pieces of two paths with a slash between them.
proof fn lemma_pieces_join(a: Seq<char>, b: Seq<char>, separators: Separators)
    requires
        separators.slash,
    ensures
        pieces(a, separators).len() > 0,
        pieces(b, separators).len() > 0,
        pieces(a + seq!['/'] + b, separators) == pieces(a, separators) + pieces(b, separators),
    decreases a.len() + b.len(),
{
    let whole = a + seq!['/'] + b;
    if a.len() > 0 {
        lemma_pieces_join(a.drop_last(), Seq::empty(), separators);
    }
    if b.len() == 0 {
        assert(whole.drop_last() =~= a);
        assert(pieces(whole, separators) =~= pieces(a, separators) + pieces(b, separators));
    } else {
        lemma_pieces_join(a, b.drop_last(), separators);
        let before = pieces(a, separators) + pieces(b.drop_last(), separators);
        assert(whole.drop_last() =~= a + seq!['/'] + b.drop_last());
        assert(whole.last() == b.last());
        assert(before.last() == pieces(b.drop_last(), separators).last());
        assert(pieces(whole, separators) =~= pieces(a, separators) + pieces(b, separators));
    }
}

proof fn lemma_parts_join(a: Seq<Seq<char>>, b: Seq<Seq<char>>)
    ensures
        parts_of(a + b, true) == parts_of(a, true) + parts_of(b, true),
    decreases b.len(),
{
    if b.len() == 0 {
        assert(a + b =~= a);
        assert(parts_of(a, true) + parts_of(b, true) =~= parts_of(a, true));
    } else {
        lemma_parts_join(a, b.drop_last());
        assert((a + b).drop_last() =~= a + b.drop_last());
        assert(parts_of(a + b, true) =~= parts_of(a, true) + parts_of(b, true));
    }
}

/// A piece that leads nowhere has no parts.
proof fn lemma_idle_piece(idle: Seq<char>, separators: Separators)
    requires
        idle.len() == 0 || idle == seq!['.'],
    ensures
        pieces(idle, separators) == seq![idle],
        parts_of(pieces(idle, separators), true) == Seq::<Seq<char>>::empty(),
{
    if idle.len() > 0 {
        assert(idle.drop_last() =~= Seq::empty());
        assert(Seq::<char>::empty().push('.') =~= idle);
        reveal_with_fuel(pieces, 2);
    } else {
        assert(idle =~= Seq::empty());
    }
    let found = pieces(idle, separators);
    assert(found =~= seq![idle]);
    assert(found.drop_last() =~= Seq::empty());
    assert(!is_part(found.last(), true));
    reveal_with_fuel(parts_of, 2);
}

/// A piece that leads nowhere may stand between two paths, and at the end of one.
proof fn lemma_plain_idle(a: Seq<char>, idle: Seq<char>, b: Seq<char>, windows: bool)
    requires
        idle.len() == 0 || idle == seq!['.'],
    ensures
        plain_components(a + seq!['/'] + b, windows) == plain_components(
            a + seq!['/'] + idle + seq!['/'] + b,
            windows,
        ),
        a.len() > 0 ==> plain_components(a, windows) == plain_components(
            a + seq!['/'] + idle,
            windows,
        ),
{
    let separators = separators_of(windows);
    let (short, long) = (a + seq!['/'] + b, a + seq!['/'] + idle + seq!['/'] + b);
    let ended = a + seq!['/'] + idle;
    lemma_pieces_join(a, b, separators);
    lemma_pieces_join(a, idle, separators);
    lemma_pieces_join(ended, b, separators);
    lemma_idle_piece(idle, separators);
    let (front, middle, back) = (
        pieces(a, separators),
        pieces(idle, separators),
        pieces(b, separators),
    );
    lemma_parts_join(front, back);
    lemma_parts_join(front + middle, back);
    lemma_parts_join(front, middle);
    assert(parts_of(front, true) + Seq::<Seq<char>>::empty() =~= parts_of(front, true));
    assert(pieces(short, separators)[0] == front[0]);
    assert(pieces(long, separators)[0] == front[0]);
    assert(pieces(ended, separators)[0] == front[0]);
    assert(short[0] == long[0]);
}

/// Doubled slashes, single dots inside and a slash at the end make no other path. On Windows
/// this is stated of paths that start with the letter of a drive, as two slashes at the start
/// of another path may lead to a server.
pub proof fn law_idle_pieces_change_nothing(a: Seq<char>, b: Seq<char>, windows: bool)
    requires
        windows ==> has_drive(a, windows),
    ensures
        same_path(a + seq!['/'] + b, a + seq!['/', '/'] + b, windows),
        same_path(a + seq!['/'] + b, a + seq!['/', '.', '/'] + b, windows),
        a.len() > (if windows {
            2int
        } else {
            0
        }) ==> same_path(a, a + seq!['/'], windows),
{
    let none = Seq::<char>::empty();
    let short = a + seq!['/'] + b;
    let doubled = a + seq!['/', '/'] + b;
    let dotted = a + seq!['/', '.', '/'] + b;
    let ended = a + seq!['/'];
    assert(doubled =~= a + seq!['/'] + none + seq!['/'] + b);
    assert(dotted =~= a + seq!['/'] + seq!['.'] + seq!['/'] + b);
    assert(ended =~= a + seq!['/'] + none);
    if windows {
        let rest = a.skip(2);
        lemma_plain_idle(rest, none, b, windows);
        lemma_plain_idle(rest, seq!['.'], b, windows);
        assert(short.skip(2) =~= rest + seq!['/'] + b);
        assert(doubled.skip(2) =~= rest + seq!['/'] + none + seq!['/'] + b);
        assert(dotted.skip(2) =~= rest + seq!['/'] + seq!['.'] + seq!['/'] + b);
        assert(ended.skip(2) =~= rest + seq!['/'] + none);
    } else {
        lemma_plain_idle(a, none, b, windows);
        lemma_plain_idle(a, seq!['.'], b, windows);
    }
}

/// A path lies in itself, and what lies in a directory lies in whatever the directory lies in.
pub proof fn law_inside_is_an_order(a: Seq<char>, b: Seq<char>, c: Seq<char>, windows: bool)
    ensures
        same_path(a, b, windows) <==> is_inside(a, b, windows) && is_inside(b, a, windows),
        is_inside(a, b, windows) && is_inside(b, c, windows) ==> is_inside(a, c, windows),
{
    let (x, y, z) = (components(a, windows), components(b, windows), components(c, windows));
    assert(x.take(x.len() as int) =~= x);
    assert(y.take(y.len() as int) =~= y);
    if is_inside(a, b, windows) && is_inside(b, c, windows) {
        assert(x.take(z.len() as int) =~= y.take(z.len() as int));
    }
}

/// A component of a path, in memory.
enum Component {
    Drive(char),
    Network(String),
    Verbatim,
    Root,
    Here,
    Part(String),
}

/// What a component stands for.
spec fn meaning(component: Component) -> PathComponent {
    match component {
        Component::Drive(letter) => PathComponent::Drive(letter),
        Component::Network(server) => PathComponent::Network(server@),
        Component::Verbatim => PathComponent::Verbatim,
        Component::Root => PathComponent::Root,
        Component::Here => PathComponent::Here,
        Component::Part(name) => PathComponent::Part(name@),
    }
}

spec fn meanings(list: Seq<Component>) -> Seq<PathComponent> {
    list.map_values(|component: Component| meaning(component))
}

fn separates(character: char, separators: Separators) -> (separates: bool)
    ensures
        separates == is_separator(character, separators),
{
    (separators.slash && character == '/') || (separators.backslash && character == '\\')
}

fn is_dot(piece: &str) -> (dot: bool)
    ensures
        dot == (piece@ == seq!['.']),
{
    if piece.unicode_len() == 1 {
        if piece.get_char(0) == '.' {
            assert(piece@ =~= seq!['.']);
            return true;
        }
        return false;
    }
    assert(seq!['.'].len() == 1);
    false
}

/// The parts of a path from a position on, and whether its first piece is a single dot.
struct Parts {
    parts: Vec<String>,
    starts_with_dot: bool,
}

fn parts_from(path: &str, start: usize, separators: Separators, idle_dots: bool) -> (found: Parts)
    requires
        start <= path@.len(),
    ensures
        texts(found.parts@) == parts_of(pieces(path@.skip(start as int), separators), idle_dots),
        found.starts_with_dot == (pieces(path@.skip(start as int), separators)[0] == seq!['.']),
{
    let total: usize = path.unicode_len();
    let ghost rest = path@.skip(start as int);
    let mut parts: Vec<String> = Vec::new();
    let mut current: String = String::new();
    let mut first: bool = true;
    let mut starts_with_dot: bool = false;
    let mut i: usize = start;
    proof {
        assert(rest.take(0) =~= Seq::empty());
        assert(texts(parts@) =~= Seq::empty());
        assert(pieces(rest.take(0), separators).drop_last() =~= Seq::empty());
        assert(current@ =~= Seq::empty());
    }
    while i < total
        invariant
            start <= i <= total,
            total == path@.len(),
            rest == path@.skip(start as int),
            ({
                let found = pieces(rest.take(i - start), separators);
                &&& found.len() > 0
                &&& current@ == found.last()
                &&& texts(parts@) == parts_of(found.drop_last(), idle_dots)
                &&& first == (found.len() == 1)
                &&& !first ==> starts_with_dot == (found[0] == seq!['.'])
            }),
        decreases total - i,
    {
        let character: char = path.get_char(i);
        let ghost before = pieces(rest.take(i - start), separators);
        let ghost kept = parts@;
        proof {
            assert(rest.take(i + 1 - start).drop_last() =~= rest.take(i - start));
            assert(rest.take(i + 1 - start).last() == character);
        }
        if separates(character, separators) {
            let dot: bool = is_dot(current.as_str());
            if first {
                first = false;
                starts_with_dot = dot;
            }
            let leads: bool = current.as_str().unicode_len() > 0 && !(idle_dots && dot);
            let piece: String = current;
            current = String::new();
            if leads {
                parts.push(piece);
                assert(texts(parts@) =~= texts(kept).push(piece@));
            }
            proof {
                let after = pieces(rest.take(i + 1 - start), separators);
                assert(after.drop_last() =~= before);
                assert(current@ =~= Seq::empty());
                assert(after[0] == before[0]);
            }
        } else {
            current.push(character);
            proof {
                let after = pieces(rest.take(i + 1 - start), separators);
                assert(after.drop_last() =~= before.drop_last());
            }
        }
        i += 1;
    }
    assert(rest.take(total - start) =~= rest);
    let dot: bool = is_dot(current.as_str());
    if first {
        starts_with_dot = dot;
    }
    if current.as_str().unicode_len() > 0 && !(idle_dots && dot) {
        let ghost kept = parts@;
        parts.push(current);
        assert(texts(parts@) =~= texts(kept).push(current@));
    }
    Parts { parts, starts_with_dot }
}

/// Adds parts to a list of components.
fn add_parts(list: &mut Vec<Component>, parts: Vec<String>)
    ensures
        meanings(final(list)@) == meanings(old(list)@) + as_components(texts(parts@)),
{
    let ghost before = list@;
    let ghost all = texts(parts@);
    let mut rest: Vec<String> = parts;
    let mut tail: Vec<Component> = Vec::new();
    while rest.len() > 0
        invariant
            rest@.len() + tail@.len() == all.len(),
            texts(rest@) == all.take(rest@.len() as int),
            forall|j: int|
                0 <= j < tail@.len() ==> meaning(#[trigger] tail@[j]) == PathComponent::Part(
                    all[all.len() - 1 - j],
                ),
        decreases rest@.len(),
    {
        let ghost held = rest@;
        let part: Option<String> = rest.pop();
        if let Some(name) = part {
            proof {
                assert(texts(held)[held.len() - 1] == name@);
                assert(texts(rest@) =~= all.take(rest@.len() as int)) by {
                    assert forall|j: int| 0 <= j < rest@.len() implies texts(rest@)[j] == all[j] by {
                        assert(texts(held)[j] == rest@[j]@);
                    }
                }
            }
            tail.push(Component::Part(name));
        }
    }
    while tail.len() > 0
        invariant
            tail@.len() <= all.len(),
            forall|j: int|
                0 <= j < tail@.len() ==> meaning(#[trigger] tail@[j]) == PathComponent::Part(
                    all[all.len() - 1 - j],
                ),
            meanings(list@) == meanings(before) + as_components(
                all.take(all.len() - tail@.len()),
            ),
        decreases tail@.len(),
    {
        let ghost held = list@;
        let next: Option<Component> = tail.pop();
        if let Some(component) = next {
            list.push(component);
            proof {
                let done = all.len() - tail@.len();
                assert(meaning(component) == PathComponent::Part(all[done - 1]));
                assert(meanings(list@) =~= meanings(held).push(meaning(component)));
                assert(as_components(all.take(done)) =~= as_components(all.take(done - 1)).push(
                    PathComponent::Part(all[done - 1]),
                ));
                assert(meanings(list@) =~= meanings(before) + as_components(all.take(done)));
            }
        }
    }
    assert(all.take(all.len() as int) =~= all);
}

/// Adds the components of a path without a prefix, from a position on.
fn add_plain(list: &mut Vec<Component>, path: &str, start: usize, windows: bool)
    requires
        start <= path@.len(),
    ensures
        meanings(final(list)@) == meanings(old(list)@) + plain_components(
            path@.skip(start as int),
            windows,
        ),
{
    let separators: Separators = Separators { slash: true, backslash: windows };
    let ghost rest = path@.skip(start as int);
    let ghost before = list@;
    let total: usize = path.unicode_len();
    let found: Parts = parts_from(path, start, separators, true);
    if start < total && separates(path.get_char(start), separators) {
        list.push(Component::Root);
        assert(meanings(list@) =~= meanings(before) + seq![PathComponent::Root]);
    } else {
        assert(meanings(list@) =~= meanings(before) + Seq::<PathComponent>::empty());
    }
    let ghost halfway = list@;
    if found.starts_with_dot {
        list.push(Component::Here);
        assert(meanings(list@) =~= meanings(halfway) + seq![PathComponent::Here]);
    } else {
        assert(meanings(list@) =~= meanings(halfway) + Seq::<PathComponent>::empty());
    }
    add_parts(list, found.parts);
    assert(meanings(list@) =~= meanings(before) + plain_components(rest, windows));
}

/// The capital letter of a drive.
fn capital(character: char) -> (letter: char)
    ensures
        letter == drive_letter(character),
{
    if 'a' <= character && character <= 'z' {
        let code: u8 = (character as u8) - 32;
        code as char
    } else {
        character
    }
}

/// Where the name of a server ends, if the path starts with one.
fn server_end(path: &str, windows: bool) -> (found: Option<usize>)
    ensures
        found is None ==> forall|end: int| !(#[trigger] is_network(path@, windows, end)),
        found matches Some(end) ==> is_network(path@, windows, end as int) && forall|other: int|
            #[trigger] is_network(path@, windows, other) ==> other == end,
{
    let separators: Separators = Separators { slash: true, backslash: windows };
    let total: usize = path.unicode_len();
    if !windows || total < 5 || !separates(path.get_char(0), separators) || !separates(
        path.get_char(1),
        separators,
    ) {
        return None;
    }
    let mut end: usize = 2;
    while end < total && !separates(path.get_char(end), separators)
        invariant
            total == path@.len(),
            2 <= end <= total,
            separators == separators_of(windows),
            forall|i: int| 2 <= i < end ==> !is_separator(#[trigger] path@[i], separators),
        decreases total - end,
    {
        end += 1;
    }
    proof {
        assert forall|other: int| #[trigger] is_network(path@, windows, other) implies other
            == end by {
            if other < end {
                assert(is_separator(path@[other], separators));
            } else if other > end {
                assert(!is_separator(path@[end as int], separators));
            }
        }
    }
    if 3 <= end && end < total - 1 && !separates(path.get_char(end + 1), separators) {
        Some(end)
    } else {
        None
    }
}

fn split(path: &str, windows: bool) -> (list: Vec<Component>)
    ensures
        meanings(list@) == components(path@, windows),
{
    let total: usize = path.unicode_len();
    let mut list: Vec<Component> = Vec::new();
    assert(meanings(list@) =~= Seq::empty());
    if windows && total >= 4 && path.get_char(0) == '\\' && path.get_char(1) == '\\'
        && path.get_char(2) == '?' && path.get_char(3) == '\\' {
        list.push(Component::Verbatim);
        assert(meanings(list@) =~= seq![PathComponent::Verbatim]);
        let found: Parts = parts_from(
            path,
            4,
            Separators { slash: false, backslash: true },
            false,
        );
        add_parts(&mut list, found.parts);
        return list;
    }
    if windows && total >= 2 && path.get_char(1) == ':' {
        let letter: char = path.get_char(0);
        if ('a' <= letter && letter <= 'z') || ('A' <= letter && letter <= 'Z') {
            list.push(Component::Drive(capital(letter)));
            assert(meanings(list@) =~= seq![PathComponent::Drive(drive_letter(letter))]);
            add_plain(&mut list, path, 2, windows);
            return list;
        }
    }
    match server_end(path, windows) {
        Some(end) => {
            assert(is_network(path@, windows, end as int));
            let server: String = path.substring_char(2, end).to_owned();
            list.push(Component::Network(server));
            assert(meanings(list@) =~= seq![
                PathComponent::Network(path@.subrange(2, end as int)),
            ]);
            add_plain(&mut list, path, end, windows);
        },
        None => {
            assert(path@.skip(0) =~= path@);
            add_plain(&mut list, path, 0, windows);
            assert(Seq::<PathComponent>::empty() + plain_components(path@, windows)
                =~= plain_components(path@, windows));
        },
    }
    list
}

fn same_component(a: &Component, b: &Component) -> (same: bool)
    ensures
        same == (meaning(*a) == meaning(*b)),
{
    match (a, b) {
        (Component::Drive(first), Component::Drive(second)) => *first == *second,
        (Component::Network(first), Component::Network(second)) => same_text(
            first.as_str(),
            second.as_str(),
        ),
        (Component::Verbatim, Component::Verbatim) => true,
        (Component::Root, Component::Root) => true,
        (Component::Here, Component::Here) => true,
        (Component::Part(first), Component::Part(second)) => same_text(
            first.as_str(),
            second.as_str(),
        ),
        _ => false,
    }
}

/// Whether a list starts with another.
fn starts_with(list: &Vec<Component>, front: &Vec<Component>) -> (starts: bool)
    ensures
        starts == (front@.len() <= list@.len() && meanings(list@).take(front@.len() as int)
            == meanings(front@)),
{
    if front.len() > list.len() {
        return false;
    }
    let mut i: usize = 0;
    while i < front.len()
        invariant
            i <= front@.len() <= list@.len(),
            forall|j: int|
                0 <= j < i ==> meaning(list@[j]) == meaning(#[trigger] front@[j]),
        decreases front@.len() - i,
    {
        if !same_component(&list[i], &front[i]) {
            proof {
                let n = front@.len() as int;
                assert(meanings(list@).take(n)[i as int] != meanings(front@)[i as int]);
            }
            return false;
        }
        i += 1;
    }
    assert(meanings(list@).take(front@.len() as int) =~= meanings(front@));
    true
}

/// Whether two spellings name the same path.
pub fn names_same_path(a: &str, b: &str, windows: bool) -> (same: bool)
    ensures
        same == same_path(a@, b@, windows),
{
    let first: Vec<Component> = split(a, windows);
    let second: Vec<Component> = split(b, windows);
    assert(meanings(first@).len() == first@.len());
    assert(meanings(second@).len() == second@.len());
    assert(meanings(first@).take(first@.len() as int) =~= meanings(first@));
    first.len() == second.len() && starts_with(&first, &second)
}

/// Whether a path lies in a directory, or is it.
pub fn lies_inside(path: &str, directory: &str, windows: bool) -> (inside: bool)
    ensures
        inside == is_inside(path@, directory@, windows),
{
    let inner: Vec<Component> = split(path, windows);
    let outer: Vec<Component> = split(directory, windows);
    assert(meanings(inner@).len() == inner@.len());
    assert(meanings(outer@).len() == outer@.len());
    starts_with(&inner, &outer)
}

/// Whether a path is the name of one file.
pub fn plain_name(path: &str, windows: bool) -> (plain: bool)
    ensures
        plain == is_plain_name(path@, windows),
{
    let found: Vec<Component> = split(path, windows);
    assert(meanings(found@).len() == found@.len());
    if found.len() != 1 {
        return false;
    }
    proof {
        assert(meanings(found@)[0] == meaning(found@[0]));
        reveal_strlit("..");
        assert(".."@ =~= seq!['.', '.']);
    }
    match &found[0] {
        Component::Part(name) => !same_text(name.as_str(), ".."),
        _ => false,
    }
}

/// A name without a slash, on systems where nothing else separates, is a plain name unless it is
/// empty or a step to the same or to the upper directory. A path from the root is never one.
pub proof fn law_names_without_slashes_are_plain(path: Seq<char>)
    ensures
        (forall|i: int| 0 <= i < path.len() ==> #[trigger] path[i] != '/') ==> (is_plain_name(
            path,
            false,
        ) <==> path.len() > 0 && path != seq!['.'] && path != seq!['.', '.']),
        path.len() > 0 && path[0] == '/' ==> !is_plain_name(path, false),
{
    let separators = separators_of(false);
    let found = pieces(path, separators);
    assert(!(exists|end: int| is_network(path, false, end)));
    assert(components(path, false) == plain_components(path, false));
    if forall|i: int| 0 <= i < path.len() ==> #[trigger] path[i] != '/' {
        lemma_one_piece(path, separators);
        assert(found =~= seq![path]);
        assert(found.drop_last() =~= Seq::empty());
        reveal_with_fuel(parts_of, 2);
        if path == seq!['.'] {
            assert(components(path, false)[0] == PathComponent::Here);
        } else if path.len() > 0 {
            assert(parts_of(found, true) =~= seq![path]);
            assert(components(path, false) =~= seq![PathComponent::Part(path)]);
        } else {
            assert(parts_of(found, true) =~= Seq::empty());
            assert(path != seq!['.']) by {
                assert(seq!['.'].len() == 1);
            }
            assert(components(path, false).len() == 0);
        }
    }
    if path.len() > 0 && path[0] == '/' {
        assert(components(path, false)[0] == PathComponent::Root);
    }
}

proof fn lemma_one_piece(path: Seq<char>, separators: Separators)
    requires
        forall|i: int| 0 <= i < path.len() ==> !is_separator(#[trigger] path[i], separators),
    ensures
        pieces(path, separators) =~= seq![path],
    decreases path.len(),
{
    if path.len() == 0 {
        assert(path =~= Seq::empty());
    } else {
        let front = path.drop_last();
        lemma_one_piece(front, separators);
        assert(!is_separator(path[path.len() - 1], separators));
        assert(front.push(path.last()) =~= path);
        assert(pieces(front, separators).drop_last() =~= Seq::empty());
    }
}

/// Only separators end a piece: a character more either starts an empty piece, if it separates, or
/// belongs to the last one.
pub proof fn law_separators_end_a_piece(path: Seq<char>, character: char, windows: bool)
    ensures
        ({
            let before = pieces(path, separators_of(windows));
            let after = pieces(path.push(character), separators_of(windows));
            if character == '/' || windows && character == '\\' {
                after == before.push(Seq::empty())
            } else {
                after == before.drop_last().push(before.last().push(character))
            }
        }),
        pieces(Seq::empty(), separators_of(windows)) == seq![Seq::<char>::empty()],
{
    assert(path.push(character).drop_last() =~= path);
}

/// A path of Windows that starts with two separators, a server and something on it belongs to
/// that server.
pub proof fn law_network_paths_name_their_server(path: Seq<char>, end: int)
    requires
        3 <= end,
        end + 1 < path.len(),
        path[0] == '\\' || path[0] == '/',
        path[1] == '\\' || path[1] == '/',
        forall|i: int|
            #![trigger path[i]]
            2 <= i < end ==> path[i] != '\\' && path[i] != '/' && path[i] != '?',
        path[end] == '\\' || path[end] == '/',
        path[end + 1] != '\\' && path[end + 1] != '/',
    ensures
        components(path, true).len() > 0,
        components(path, true)[0] == PathComponent::Network(path.subrange(2, end)),
{
    assert(path[2] != '?');
    assert(is_network(path, true, end));
    let found = choose|end: int| is_network(path, true, end);
    assert(found == end) by {
        if found < end {
            assert(is_separator(path[found], separators_of(true)));
            assert(path[found] != '\\' && path[found] != '/');
        }
        if end < found {
            assert(!is_separator(path[end], separators_of(true)));
        }
    }
}

/// A path of Windows is taken literally exactly if it starts with two backslashes, a question mark
/// and another backslash; on other systems none is.
pub proof fn law_literal_paths_are_marked(path: Seq<char>, windows: bool)
    ensures
        is_verbatim(path, windows) <==> windows && path.len() >= 4 && path.take(4) == seq![
            '\\',
            '\\',
            '?',
            '\\',
        ],
        is_verbatim(path, windows) ==> components(path, windows)[0] == PathComponent::Verbatim,
{
    if windows && path.len() >= 4 {
        let start = path.take(4);
        if is_verbatim(path, windows) {
            assert(start =~= seq!['\\', '\\', '?', '\\']);
        }
        if start == seq!['\\', '\\', '?', '\\'] {
            assert(start[0] == path[0] && start[1] == path[1] && start[2] == path[2] && start[3]
                == path[3]);
        }
    }
}

} // verus!
