//! Paths as text, in one form on every system: `/` separates components, and a path that starts
//! with `/` is absolute. Paths of the system at hand come in and go out in this form.

use vstd::prelude::*;

use crate::order;
use crate::text;

verus! {

/// One component of a path, in order of rank.
pub enum Part {
    Root,
    Current,
    Parent,
    Name(Seq<char>),
}

/// One component of a path.
pub enum Component {
    Root,
    Current,
    Parent,
    Name(String),
}

impl View for Component {
    type V = Part;

    open spec fn view(&self) -> Part {
        match self {
            Component::Root => Part::Root,
            Component::Current => Part::Current,
            Component::Parent => Part::Parent,
            Component::Name(n) => Part::Name(n@),
        }
    }
}

/// The components held by a sequence.
pub open spec fn parts(s: Seq<Component>) -> Seq<Part> {
    s.map_values(|c: Component| c@)
}

/// Does the piece at position `i` between separators name a component? Empty pieces do
/// not, nor does a `.` anywhere but at the start.
pub open spec fn counts(ps: Seq<Seq<char>>, i: int) -> bool {
    ps[i].len() > 0 && (ps[i] == "."@ ==> i == 0)
}

/// The component that a counted piece names.
pub open spec fn part_of(piece: Seq<char>) -> Part {
    if piece == "."@ {
        Part::Current
    } else if piece == ".."@ {
        Part::Parent
    } else {
        Part::Name(piece)
    }
}

/// The components named by the first `n` pieces.
pub open spec fn named_parts(ps: Seq<Seq<char>>, n: nat) -> Seq<Part>
    decreases n,
{
    if n == 0 {
        seq![]
    } else if counts(ps, n - 1) {
        named_parts(ps, (n - 1) as nat).push(part_of(ps[n - 1]))
    } else {
        named_parts(ps, (n - 1) as nat)
    }
}

/// Is the path absolute?
pub open spec fn absolute(path: Seq<char>) -> bool {
    path.len() > 0 && path[0] == '/'
}

/// The components of a path.
pub open spec fn path_parts(path: Seq<char>) -> Seq<Part> {
    let ps = text::pieces(path, '/');
    if absolute(path) {
        seq![Part::Root] + named_parts(ps, ps.len())
    } else {
        named_parts(ps, ps.len())
    }
}

/// Is the path absolute?
pub fn is_absolute(path: &str) -> (r: bool)
    ensures
        r == absolute(path@),
{
    proof {
        reveal_strlit("/");
    }
    let r = text::starts_with(path, "/");
    proof {
        if absolute(path@) {
            assert(path@.take(1) =~= "/"@);
        }
        if r {
            assert(path@.take(1)[0] == "/"@[0]);
        }
    }
    r
}

fn counts_at(ps: &Vec<String>, i: usize) -> (r: bool)
    requires
        i < ps@.len(),
    ensures
        r == counts(text::texts(ps@), i as int),
{
    !ps[i].as_str().is_empty() && (i == 0 || !text::same(ps[i].as_str(), "."))
}

fn component_of(piece: &String) -> (r: Component)
    ensures
        r@ == part_of(piece@),
{
    if text::same(piece.as_str(), ".") {
        Component::Current
    } else if text::same(piece.as_str(), "..") {
        Component::Parent
    } else {
        Component::Name(piece.clone())
    }
}

/// The components of a path.
pub fn components(path: &str) -> (r: Vec<Component>)
    ensures
        parts(r@) == path_parts(path@),
{
    let ps = text::split_char(path, '/');
    let ghost model = text::pieces(path@, '/');
    let mut out: Vec<Component> = Vec::new();
    if is_absolute(path) {
        out.push(Component::Root);
    }
    let ghost head = parts(out@);
    for i in 0..ps.len()
        invariant
            text::texts(ps@) == model,
            parts(out@) == head + named_parts(model, i as nat),
    {
        if counts_at(&ps, i) {
            let ghost before = parts(out@);
            out.push(component_of(&ps[i]));
            assert(parts(out@) =~= before.push(part_of(model[i as int])));
            assert(parts(out@) =~= head + named_parts(model, (i + 1) as nat));
        }
    }
    assert(ps@.len() == model.len());
    assert(parts(out@) =~= path_parts(path@));
    out
}

// ---------------------------------------------------------------------------
// Order
// ---------------------------------------------------------------------------

/// The rank of a component's kind.
pub open spec fn rank(p: Part) -> int {
    match p {
        Part::Root => 0,
        Part::Current => 1,
        Part::Parent => 2,
        Part::Name(_) => 3,
    }
}

/// Components by rank, names by their text.
pub open spec fn compare_part(a: Part, b: Part) -> int {
    match (a, b) {
        (Part::Name(x), Part::Name(y)) => order::compare_text(x, y),
        _ => order::compare_number(rank(a), rank(b)),
    }
}

/// Paths by their first differing component; a proper prefix comes first.
pub open spec fn compare_parts(a: Seq<Part>, b: Seq<Part>) -> int
    decreases a.len(),
{
    if a.len() == 0 || b.len() == 0 {
        order::compare_number(a.len() as int, b.len() as int)
    } else {
        order::lexical(compare_part(a[0], b[0]), compare_parts(a.drop_first(), b.drop_first()))
    }
}

fn rank_of(p: &Component) -> (r: usize)
    ensures
        r == rank(p@),
{
    match p {
        Component::Root => 0,
        Component::Current => 1,
        Component::Parent => 2,
        Component::Name(_) => 3,
    }
}

fn compare_component(a: &Component, b: &Component) -> (r: i8)
    ensures
        r == compare_part(a@, b@),
{
    match (a, b) {
        (Component::Name(x), Component::Name(y)) => order::compare_strings(x.as_str(), y.as_str()),
        _ => order::compare_usize(rank_of(a), rank_of(b)),
    }
}

/// Compare two paths component by component.
pub fn compare_components(a: &Vec<Component>, b: &Vec<Component>) -> (r: i8)
    ensures
        r == compare_parts(parts(a@), parts(b@)),
{
    let ghost x = parts(a@);
    let ghost y = parts(b@);
    let mut i: usize = 0;
    assert(x.skip(0) =~= x);
    assert(y.skip(0) =~= y);
    while i < a.len() && i < b.len()
        invariant
            i <= a@.len(),
            i <= b@.len(),
            x == parts(a@),
            y == parts(b@),
            compare_parts(x, y) == compare_parts(x.skip(i as int), y.skip(i as int)),
        decreases a@.len() - i,
    {
        let c = compare_component(&a[i], &b[i]);
        assert(x.skip(i as int)[0] == a@[i as int]@);
        assert(y.skip(i as int)[0] == b@[i as int]@);
        if c != 0 {
            return c;
        }
        assert(x.skip(i as int).drop_first() =~= x.skip(i + 1));
        assert(y.skip(i as int).drop_first() =~= y.skip(i + 1));
        i = i + 1;
    }
    order::compare_usize(a.len(), b.len())
}

/// `compare_parts` is antisymmetric, and zero on equal component lists only.
pub proof fn lemma_compare_parts_antisymmetric(a: Seq<Part>, b: Seq<Part>)
    ensures
        compare_parts(a, b) == -compare_parts(b, a),
        compare_parts(a, b) == 0 <==> a == b,
    decreases a.len(),
{
    if a.len() == 0 || b.len() == 0 {
        if a.len() == b.len() {
            assert(a =~= b);
        }
    } else {
        if a[0] is Name && b[0] is Name {
            order::lemma_compare_text_antisymmetric(a[0]->Name_0, b[0]->Name_0);
        }
        lemma_compare_parts_antisymmetric(a.drop_first(), b.drop_first());
        if compare_parts(a, b) == 0 {
            assert(a =~= seq![a[0]] + a.drop_first());
            assert(b =~= seq![b[0]] + b.drop_first());
        }
    }
}

proof fn lemma_compare_part_zero(a: Part, b: Part)
    ensures
        compare_part(a, b) == 0 <==> a == b,
{
    if a is Name && b is Name {
        order::lemma_compare_text_antisymmetric(a->Name_0, b->Name_0);
    }
}

proof fn lemma_compare_part_transitive(a: Part, b: Part, c: Part)
    requires
        compare_part(a, b) <= 0,
        compare_part(b, c) <= 0,
    ensures
        compare_part(a, c) <= 0,
        compare_part(a, c) == 0 ==> compare_part(a, b) == 0 && compare_part(b, c) == 0,
{
    if a is Name && b is Name && c is Name {
        let (x, y, z) = (a->Name_0, b->Name_0, c->Name_0);
        order::lemma_compare_text_transitive(x, y, z);
        order::lemma_compare_text_antisymmetric(x, z);
        order::lemma_compare_text_antisymmetric(x, y);
        order::lemma_compare_text_antisymmetric(y, z);
        if order::compare_text(x, z) == 0 {
            assert(order::compare_text(y, x) <= 0);
        }
    }
}

/// `compare_parts` is transitive.
pub proof fn lemma_compare_parts_transitive(a: Seq<Part>, b: Seq<Part>, c: Seq<Part>)
    requires
        compare_parts(a, b) <= 0,
        compare_parts(b, c) <= 0,
    ensures
        compare_parts(a, c) <= 0,
    decreases a.len(),
{
    if a.len() == 0 || b.len() == 0 || c.len() == 0 {
    } else {
        lemma_compare_part_transitive(a[0], b[0], c[0]);
        if compare_part(a[0], c[0]) == 0 {
            lemma_compare_parts_transitive(a.drop_first(), b.drop_first(), c.drop_first());
        }
    }
}

// ---------------------------------------------------------------------------
// Taking paths apart and putting them together
// ---------------------------------------------------------------------------

/// The position of the last `.` in a file name, or -1 if there is none.
pub open spec fn last_dot(name: Seq<char>) -> int
    decreases name.len(),
{
    if name.len() == 0 {
        -1
    } else if name.last() == '.' {
        name.len() - 1
    } else {
        last_dot(name.drop_last())
    }
}

/// What follows the last `.` of a file name, unless the name starts with that `.`.
pub open spec fn name_extension(name: Seq<char>) -> Option<Seq<char>> {
    let k = last_dot(name);
    if k <= 0 {
        None
    } else {
        Some(name.skip(k + 1))
    }
}

/// The extension of the file that a path names.
pub open spec fn path_extension(path: Seq<char>) -> Option<Seq<char>> {
    let ps = path_parts(path);
    if ps.len() > 0 && ps.last() is Name {
        name_extension(ps.last()->Name_0)
    } else {
        None
    }
}

fn extension_of_name(name: &str) -> (r: Option<String>)
    ensures
        text::opt_text(r) == name_extension(name@),
{
    let chars = text::chars_of(name);
    let mut k: usize = chars.len();
    assert(chars@.take(chars@.len() as int) =~= chars@);
    while k > 0
        invariant
            k <= chars@.len(),
            chars@ == name@,
            last_dot(name@) == last_dot(chars@.take(k as int)),
        decreases k,
    {
        assert(chars@.take(k as int).drop_last() =~= chars@.take(k - 1));
        if chars[k - 1] == '.' {
            if k == 1 {
                return None;
            }
            let rest = text::substring(chars.as_slice(), k, chars.len());
            assert(rest@ =~= name@.skip(k as int));
            return Some(rest);
        }
        k = k - 1;
    }
    None
}

/// The extension of the file that a path names, if it has one.
pub fn extension(path: &str) -> (r: Option<String>)
    ensures
        text::opt_text(r) == path_extension(path@),
{
    let cs = components(path);
    if cs.len() == 0 {
        return None;
    }
    assert(path_parts(path@).last() == cs@.last()@);
    match &cs[cs.len() - 1] {
        Component::Name(n) => extension_of_name(n.as_str()),
        _ => None,
    }
}

/// The last of the first `n` pieces that names a component, or -1 if none does.
pub open spec fn last_counted(ps: Seq<Seq<char>>, n: nat) -> int
    decreases n,
{
    if n == 0 {
        -1
    } else if counts(ps, n - 1) {
        n - 1
    } else {
        last_counted(ps, (n - 1) as nat)
    }
}

/// The path without its final component; none for a root or an empty path.
pub open spec fn path_parent(path: Seq<char>) -> Option<Seq<char>> {
    let ps = text::pieces(path, '/');
    let k = last_counted(ps, ps.len());
    if k < 0 {
        None
    } else {
        let j = last_counted(ps, k as nat);
        if j >= 0 {
            Some(text::joined(ps.take(j + 1), "/"@))
        } else if absolute(path) {
            Some("/"@)
        } else {
            Some(""@)
        }
    }
}

fn find_counted(ps: &Vec<String>, n: usize) -> (r: Option<usize>)
    requires
        n <= ps@.len(),
    ensures
        match r {
            Some(k) => k < n && k == last_counted(text::texts(ps@), n as nat),
            None => last_counted(text::texts(ps@), n as nat) == -1,
        },
{
    let mut k: usize = n;
    while k > 0
        invariant
            k <= n <= ps@.len(),
            last_counted(text::texts(ps@), n as nat) == last_counted(text::texts(ps@), k as nat),
        decreases k,
    {
        if counts_at(ps, k - 1) {
            return Some(k - 1);
        }
        k = k - 1;
    }
    None
}

/// The path without its final component; none for a root or an empty path.
pub fn parent(path: &str) -> (r: Option<String>)
    ensures
        text::opt_text(r) == path_parent(path@),
{
    let mut ps = text::split_char(path, '/');
    let ghost model = text::pieces(path@, '/');
    assert(ps@.len() == model.len());
    match find_counted(&ps, ps.len()) {
        None => None,
        Some(k) => match find_counted(&ps, k) {
            Some(j) => {
                ps.truncate(j + 1);
                assert(text::texts(ps@) =~= model.take(j + 1));
                Some(text::join(&ps, "/"))
            },
            None => if is_absolute(path) {
                Some("/".to_owned())
            } else {
                Some("".to_owned())
            },
        },
    }
}

/// `rel` seen from `base`: `rel` itself where it is absolute.
pub open spec fn path_join(base: Seq<char>, rel: Seq<char>) -> Seq<char> {
    if absolute(rel) {
        rel
    } else if base.len() == 0 || base.last() == '/' {
        base + rel
    } else {
        base + seq!['/'] + rel
    }
}

/// `rel` seen from `base`: `rel` itself where it is absolute.
pub fn join(base: &str, rel: &str) -> (r: String)
    ensures
        r@ == path_join(base@, rel@),
{
    if is_absolute(rel) {
        return rel.to_owned();
    }
    let n = base.unicode_len();
    let mut out = base.to_owned();
    if n > 0 && base.get_char(n - 1) != '/' {
        out.push('/');
        assert(base@.push('/') =~= base@ + seq!['/']);
    }
    out.append(rel);
    out
}

/// The text of a component.
pub open spec fn part_text(p: Part) -> Seq<char> {
    match p {
        Part::Root => seq![],
        Part::Current => "."@,
        Part::Parent => ".."@,
        Part::Name(n) => n,
    }
}

/// The texts of components.
pub open spec fn part_texts(ps: Seq<Part>) -> Seq<Seq<char>> {
    ps.map_values(|p: Part| part_text(p))
}

/// The components of `path` below `root`, as a relative path; none where `path` does not
/// lie under `root`. Every path lies as it is under one without components.
pub open spec fn path_below(path: Seq<char>, root: Seq<char>) -> Option<Seq<char>> {
    let p = path_parts(path);
    let r = path_parts(root);
    if r.len() == 0 {
        Some(path)
    } else if r.is_prefix_of(p) {
        Some(text::joined(part_texts(p.skip(r.len() as int)), "/"@))
    } else {
        None
    }
}

fn text_of(c: &Component) -> (r: String)
    ensures
        r@ == part_text(c@),
{
    match c {
        Component::Root => String::new(),
        Component::Current => ".".to_owned(),
        Component::Parent => "..".to_owned(),
        Component::Name(n) => n.clone(),
    }
}

/// The components of `path` below `root`, as a relative path; none where `path` does not
/// lie under `root`. Every path lies as it is under one without components.
pub fn below(path: &str, root: &str) -> (r: Option<String>)
    ensures
        text::opt_text(r) == path_below(path@, root@),
{
    let p = components(path);
    let r = components(root);
    let ghost pm = parts(p@);
    let ghost rm = parts(r@);
    if r.len() == 0 {
        return Some(path.to_owned());
    }
    if r.len() > p.len() {
        return None;
    }
    for i in 0..r.len()
        invariant
            pm == parts(p@),
            rm == parts(r@),
            rm.len() <= pm.len(),
            pm == path_parts(path@),
            rm == path_parts(root@),
            forall|k: int| 0 <= k < i ==> rm[k] == pm[k],
    {
        let c = compare_component(&r[i], &p[i]);
        proof {
            lemma_compare_part_zero(rm[i as int], pm[i as int]);
        }
        if c != 0 {
            assert(pm.take(rm.len() as int)[i as int] != rm[i as int]);
            return None;
        }
    }
    assert(pm.take(rm.len() as int) =~= rm);
    let mut out: Vec<String> = Vec::new();
    let ghost tail = part_texts(pm.skip(rm.len() as int));
    for i in r.len()..p.len()
        invariant
            pm == parts(p@),
            rm == parts(r@),
            rm.len() <= i <= pm.len(),
            tail == part_texts(pm.skip(rm.len() as int)),
            text::texts(out@) == tail.take(i - rm.len()),
    {
        let ghost before = text::texts(out@);
        out.push(text_of(&p[i]));
        assert(text::texts(out@) =~= before.push(part_text(pm[i as int])));
        assert(tail.len() == pm.len() - rm.len());
        assert(tail[i - rm.len()] == part_text(pm[i as int]));
        assert(pm[i as int] == p@[i as int]@);
        assert(text::texts(out@) =~= tail.take(i + 1 - rm.len()));
    }
    assert(tail.take(tail.len() as int) =~= tail);
    Some(text::join(&out, "/"))
}

// ---------------------------------------------------------------------------
// What components decide
// ---------------------------------------------------------------------------

/// Paths are ordered by their first differing component; where one is the start of the other, the
/// shorter comes first. The root comes before `.`, that before `..`, and that before a name; names
/// are ordered as texts.
pub proof fn lemma_first_component_decides(a: Seq<Part>, b: Seq<Part>, i: int)
    requires
        0 <= i <= a.len(),
        i <= b.len(),
        a.take(i) == b.take(i),
    ensures
        i == a.len() && i < b.len() ==> compare_parts(a, b) < 0,
        i < a.len() && i < b.len() ==> {
            &&& a[i] is Root && !(b[i] is Root) ==> compare_parts(a, b) < 0
            &&& a[i] is Current && (b[i] is Parent || b[i] is Name) ==> compare_parts(a, b) < 0
            &&& a[i] is Parent && b[i] is Name ==> compare_parts(a, b) < 0
            &&& a[i] is Name && b[i] is Name && order::compare_text(a[i]->0, b[i]->0) < 0
                ==> compare_parts(a, b) < 0
        },
    decreases i,
{
    if i > 0 {
        assert(a[0] == a.take(i)[0] && b[0] == b.take(i)[0]);
        let (x, y) = (a.drop_first(), b.drop_first());
        assert(x.take(i - 1) =~= a.take(i).drop_first());
        assert(y.take(i - 1) =~= b.take(i).drop_first());
        if a[0] is Name {
            order::lemma_compare_text_antisymmetric(a[0]->0, b[0]->0);
        }
        lemma_first_component_decides(x, y, i - 1);
    }
}

/// What a path has between its slashes are its components: a leading slash is the root, a `.` counts
/// only at the start, an empty piece counts nowhere, and every other piece is a component in its
/// turn. A component more at the end of a path is a component more.
pub proof fn lemma_components_one_by_one(path: Seq<char>, name: Seq<char>)
    requires
        !name.contains('/'),
        path.len() > 0,
    ensures
        name.len() > 0 && name != "."@ && name != ".."@ ==> path_parts(path + seq!['/'] + name)
            == path_parts(path).push(Part::Name(name)),
        name == ".."@ ==> path_parts(path + seq!['/'] + name) == path_parts(path).push(Part::Parent),
        name == "."@ || name.len() == 0 ==> path_parts(path + seq!['/'] + name) == path_parts(path),
{
    reveal_strlit(".");
    reveal_strlit("..");
    let all = path + seq!['/'] + name;
    let (p, q) = (text::pieces(path, '/'), text::pieces(all, '/'));
    lemma_pieces_push(path, name);
    assert(q == p.push(name));
    assert(p.len() > 0) by {
        lemma_pieces_some(path);
    }
    lemma_named_parts_prefix(p, name, p.len());
    assert(absolute(all) == absolute(path));
    let n = p.len();
    assert(q[n as int] == name);
    if name.len() > 0 && name != "."@ {
        assert(counts(q, n as int));
        assert(named_parts(q, q.len()) == named_parts(p, n).push(part_of(name)));
        assert(path_parts(all) =~= path_parts(path).push(part_of(name)));
    } else {
        assert(!counts(q, n as int));
    }
}

proof fn lemma_pieces_some(s: Seq<char>)
    ensures
        text::pieces(s, '/').len() > 0,
{
}

proof fn lemma_pieces_push(s: Seq<char>, name: Seq<char>)
    requires
        !name.contains('/'),
    ensures
        text::pieces(s + seq!['/'] + name, '/') == text::pieces(s, '/').push(name),
    decreases s.len(),
{
    let all = s + seq!['/'] + name;
    let n = text::position_of(s, '/') as int;
    text::lemma_position_of(s, '/');
    if n < s.len() {
        let (a, rest) = (s.take(n), s.skip(n + 1));
        if a.contains('/') {
            let k = choose|k: int| 0 <= k < a.len() && a[k] == '/';
            assert(s[k] == '/');
        }
        assert(s =~= a + seq!['/'] + rest);
        assert(all =~= a + seq!['/'] + (rest + seq!['/'] + name));
        text::lemma_pieces_one_by_one(a, '/', rest);
        text::lemma_pieces_one_by_one(a, '/', rest + seq!['/'] + name);
        lemma_pieces_push(rest, name);
        assert(text::pieces(all, '/') =~= text::pieces(s, '/').push(name));
    } else {
        if s.contains('/') {
        }
        text::lemma_pieces_one_by_one(s, '/', name);
        text::lemma_pieces_one_by_one(name, '/', seq![]);
        assert(text::pieces(all, '/') =~= text::pieces(s, '/').push(name));
    }
}

proof fn lemma_named_parts_prefix(p: Seq<Seq<char>>, name: Seq<char>, n: nat)
    requires
        n <= p.len(),
    ensures
        named_parts(p.push(name), n) == named_parts(p, n),
    decreases n,
{
    if n > 0 {
        lemma_named_parts_prefix(p, name, (n - 1) as nat);
        assert(p.push(name)[n - 1] == p[n - 1]);
        assert(counts(p.push(name), n - 1) == counts(p, n - 1));
    }
}

/// A path of one piece is that component; one with a slash before it has the root before it.
pub proof fn lemma_first_component(name: Seq<char>)
    requires
        !name.contains('/'),
        name.len() > 0,
    ensures
        name != "."@ && name != ".."@ ==> path_parts(name) == seq![Part::Name(name)]
            && path_parts(seq!['/'] + name) == seq![Part::Root, Part::Name(name)],
        name == "."@ ==> path_parts(name) == seq![Part::Current],
        name == ".."@ ==> path_parts(name) == seq![Part::Parent],
{
    reveal_strlit(".");
    reveal_strlit("..");
    let none = Seq::<char>::empty();
    text::lemma_pieces_one_by_one(name, '/', none);
    assert(name[0] != '/') by {
        if name[0] == '/' {
            assert(name.contains('/'));
        }
    }
    let ps = text::pieces(name, '/');
    assert(named_parts(ps, 0) == Seq::<Part>::empty());
    assert(counts(ps, 0));
    assert(named_parts(ps, 1) =~= seq![part_of(name)]);
    if name != "."@ {
        text::lemma_pieces_one_by_one(none, '/', name);
        assert(none + seq!['/'] + name =~= seq!['/'] + name);
        let qs = text::pieces(seq!['/'] + name, '/');
        assert(qs =~= seq![none, name]);
        assert(named_parts(qs, 0) == Seq::<Part>::empty());
        assert(!counts(qs, 0));
        assert(counts(qs, 1));
        assert(named_parts(qs, 1) == Seq::<Part>::empty());
        assert(named_parts(qs, 2) =~= seq![part_of(name)]);
        assert(path_parts(seq!['/'] + name) =~= seq![Part::Root] + seq![part_of(name)]);
    }
}

proof fn lemma_last_dot_is(name: Seq<char>, k: int)
    requires
        -1 <= k < name.len(),
        k >= 0 ==> name[k] == '.',
        forall|i: int| k < i < name.len() ==> name[i] != '.',
    ensures
        last_dot(name) == k,
    decreases name.len(),
{
    if name.len() > 0 && k < name.len() - 1 {
        let init = name.drop_last();
        assert forall|i: int| k < i < init.len() implies init[i] != '.' by {
            assert(init[i] == name[i]);
        }
        lemma_last_dot_is(init, k);
    }
}

/// The extension of a file is what its name has behind the last dot, which is not the first
/// character of the name; a name without such a dot has none. The directory counts for nothing.
pub proof fn lemma_extension_read(dir: Seq<char>, stem: Seq<char>, ext: Seq<char>)
    requires
        dir.len() > 0,
        !stem.contains('/'),
        !ext.contains('/'),
        !ext.contains('.'),
    ensures
        stem.len() > 0 && (stem != "."@ || ext.len() > 0) ==> path_extension(
            stem + seq!['.'] + ext,
        ) == Some(ext) && path_extension(dir + seq!['/'] + (stem + seq!['.'] + ext)) == Some(ext),
        ext.len() > 0 ==> path_extension(seq!['.'] + ext) is None && path_extension(ext) is None
            && path_extension(dir + seq!['/'] + ext) is None && path_extension(
            dir + seq!['/'] + (seq!['.'] + ext),
        ) is None,
{
    reveal_strlit(".");
    reveal_strlit("..");
    let name = stem + seq!['.'] + ext;
    let hidden = seq!['.'] + ext;
    assert forall|i: int| 0 <= i < ext.len() implies ext[i] != '.' by {
        assert(ext.contains(ext[i]));
    }
    assert forall|i: int| stem.len() < i < name.len() implies name[i] != '.' by {
        assert(name[i] == ext[i - stem.len() - 1]);
    }
    assert forall|i: int| 0 < i < hidden.len() implies hidden[i] != '.' by {
        assert(hidden[i] == ext[i - 1]);
    }
    assert(!name.contains('/')) by {
        if name.contains('/') {
            let i = choose|i: int| 0 <= i < name.len() && name[i] == '/';
            if i < stem.len() {
                assert(stem.contains(stem[i]));
            } else if i > stem.len() {
                assert(ext.contains(ext[i - stem.len() - 1]));
            }
        }
    }
    assert(!hidden.contains('/')) by {
        if hidden.contains('/') {
            let i = choose|i: int| 0 <= i < hidden.len() && hidden[i] == '/';
            if i > 0 {
                assert(ext.contains(ext[i - 1]));
            }
        }
    }
    if stem.len() > 0 && (stem != "."@ || ext.len() > 0) {
        lemma_last_dot_is(name, stem.len() as int);
        assert(name.skip(stem.len() as int + 1) =~= ext);
        assert(name != "."@);
        assert(name != ".."@) by {
            if name == ".."@ {
                assert(stem =~= "."@);
            }
        }
        lemma_first_component(name);
        lemma_components_one_by_one(dir, name);
    }
    if ext.len() > 0 {
        lemma_last_dot_is(hidden, 0);
        lemma_last_dot_is(ext, -1);
        assert(hidden != "."@ && ext != "."@ && ext != ".."@);
        assert(hidden != ".."@) by {
            if hidden == ".."@ {
                assert(hidden[1] == ext[0]);
            }
        }
        lemma_first_component(hidden);
        lemma_components_one_by_one(dir, hidden);
        lemma_first_component(ext);
        lemma_components_one_by_one(dir, ext);
    }
}

proof fn lemma_last_counted(ps: Seq<Seq<char>>, n: nat)
    requires
        n <= ps.len(),
    ensures
        ({
            let k = last_counted(ps, n);
            &&& -1 <= k < n
            &&& k >= 0 ==> counts(ps, k) && named_parts(ps, n) == named_parts(ps, k as nat).push(
                part_of(ps[k]),
            )
            &&& k < 0 ==> named_parts(ps, n).len() == 0
        }),
    decreases n,
{
    if n > 0 && !counts(ps, n - 1) {
        lemma_last_counted(ps, (n - 1) as nat);
    }
}

proof fn lemma_named_parts_take(ps: Seq<Seq<char>>, m: int, n: nat)
    requires
        n <= m <= ps.len(),
    ensures
        named_parts(ps.take(m), n) == named_parts(ps, n),
    decreases n,
{
    if n > 0 {
        lemma_named_parts_take(ps, m, (n - 1) as nat);
        assert(ps.take(m)[n - 1] == ps[n - 1]);
        assert(counts(ps.take(m), n - 1) == counts(ps, n - 1));
    }
}

proof fn lemma_pieces_have_none(s: Seq<char>, c: char)
    ensures
        forall|i: int|
            0 <= i < text::pieces(s, c).len() ==> !(#[trigger] text::pieces(s, c)[i]).contains(c),
    decreases s.len(),
{
    let n = text::position_of(s, c) as int;
    text::lemma_position_of(s, c);
    if n < s.len() {
        let a = s.take(n);
        if a.contains(c) {
            let k = choose|k: int| 0 <= k < a.len() && a[k] == c;
            assert(s[k] == c);
        }
        let rest = text::pieces(s.skip(n + 1), c);
        lemma_pieces_have_none(s.skip(n + 1), c);
        assert forall|i: int| 0 <= i < text::pieces(s, c).len() implies !(#[trigger] text::pieces(
            s,
            c,
        )[i]).contains(c) by {
            if i > 0 {
                assert(text::pieces(s, c)[i] == rest[i - 1]);
            }
        }
    }
}

/// The parent of a path has its components but the last. Only a path without a component behind
/// the root has none.
pub proof fn lemma_parent_lacks_last(path: Seq<char>)
    ensures
        path_parent(path) is None <==> path_parts(path).len() == 0 || path_parts(path)
            == seq![Part::Root],
        path_parent(path) matches Some(p) ==> path_parts(p) == path_parts(path).drop_last(),
{
    reveal_strlit("");
    reveal_strlit("/");
    reveal_strlit(".");
    let ps = text::pieces(path, '/');
    lemma_pieces_some(path);
    lemma_last_counted(ps, ps.len());
    let k = last_counted(ps, ps.len());
    let none = Seq::<char>::empty();
    text::lemma_pieces_one_by_one(none, '/', none);
    if absolute(path) {
        assert(path =~= none + seq!['/'] + path.skip(1));
        text::lemma_pieces_one_by_one(none, '/', path.skip(1));
        assert(ps[0] == none);
        assert(!counts(ps, 0));
        assert(path_parts(path)[0] == Part::Root);
    }
    if k < 0 {
        assert(named_parts(ps, ps.len()) =~= seq![]);
        if absolute(path) {
            assert(path_parts(path) =~= seq![Part::Root]);
        }
    } else {
        lemma_last_counted(ps, k as nat);
        let j = last_counted(ps, k as nat);
        let p = path_parent(path)->Some_0;
        assert(path_parts(path).drop_last() =~= if absolute(path) {
            seq![Part::Root] + named_parts(ps, k as nat)
        } else {
            named_parts(ps, k as nat)
        });
        assert(path_parts(path).last() == part_of(ps[k]));
        if j >= 0 {
            let init = ps.take(j + 1);
            lemma_pieces_have_none(path, '/');
            assert("/"@ =~= seq!['/']);
            text::lemma_pieces_of_joined(init, '/');
            assert(text::pieces(p, '/') == init);
            lemma_named_parts_take(ps, j + 1, (j + 1) as nat);
            lemma_after_last(ps, j, k as nat);
            lemma_absolute_by_piece(p);
            lemma_absolute_by_piece(path);
            assert(init[0] == ps[0]);
            if absolute(path) {
                assert(j > 0);
            }
            if init.len() == 1 {
                assert(p == init[0]);
                assert(counts(ps, 0));
            }
        } else if absolute(path) {
            assert(p =~= none + seq!['/'] + none);
            assert(text::pieces(p, '/') =~= seq![none, none]);
            let qs = text::pieces(p, '/');
            assert(!counts(qs, 0) && !counts(qs, 1));
            assert(named_parts(qs, 0) =~= seq![]);
            assert(named_parts(qs, 1) =~= seq![]);
            assert(named_parts(qs, 2) =~= seq![]);
            assert(path_parts(p) =~= path_parts(path).drop_last());
        } else {
            assert(p =~= none);
            assert(text::pieces(p, '/') =~= seq![none]);
            let qs = text::pieces(p, '/');
            assert(!counts(qs, 0));
            assert(named_parts(qs, 0) =~= seq![]);
            assert(named_parts(qs, 1) =~= seq![]);
            assert(path_parts(p) =~= path_parts(path).drop_last());
        }
    }
}

proof fn lemma_after_last(ps: Seq<Seq<char>>, j: int, n: nat)
    requires
        n <= ps.len(),
        j == last_counted(ps, n),
        j >= 0,
    ensures
        named_parts(ps, n) == named_parts(ps, (j + 1) as nat),
    decreases n,
{
    if n > 0 && !counts(ps, n - 1) {
        lemma_after_last(ps, j, (n - 1) as nat);
    }
}

proof fn lemma_absolute_by_piece(path: Seq<char>)
    ensures
        absolute(path) <==> text::pieces(path, '/').len() > 1 && text::pieces(path, '/')[0].len()
            == 0,
{
    let n = text::position_of(path, '/');
    text::lemma_position_of(path, '/');
    if n < path.len() {
        lemma_pieces_some(path.skip(n as int + 1));
    }
}

/// Is it a name that stands for itself in a path?
pub open spec fn plain_name(name: Seq<char>) -> bool {
    name.len() > 0 && !name.contains('/') && name != "."@ && name != ".."@
}

/// The names as components.
pub open spec fn as_parts(names: Seq<Seq<char>>) -> Seq<Part> {
    names.map_values(|n: Seq<char>| Part::Name(n))
}

proof fn lemma_join_first(base: Seq<char>, name: Seq<char>)
    requires
        base.len() > 0,
        plain_name(name),
    ensures
        !absolute(name),
        path_parts(path_join(base, name)) == path_parts(base).push(Part::Name(name)),
        path_join(base, name).len() > 0,
{
    assert(!absolute(name)) by {
        if absolute(name) {
            assert(name.contains(name[0]));
        }
    }
    if base.last() != '/' {
        lemma_components_one_by_one(base, name);
    } else {
        let b = base.drop_last();
        let none = Seq::<char>::empty();
        if b.len() > 0 {
            assert(base =~= b + seq!['/'] + none);
            assert(base + name =~= b + seq!['/'] + name);
            lemma_components_one_by_one(b, none);
            lemma_components_one_by_one(b, name);
        } else {
            assert(base =~= seq!['/']);
            assert(base + name =~= seq!['/'] + name);
            lemma_first_component(name);
            assert(base =~= none + seq!['/'] + none);
            text::lemma_pieces_one_by_one(none, '/', none);
            let qs = text::pieces(base, '/');
            assert(qs =~= seq![none, none]);
            reveal_strlit(".");
            assert(!counts(qs, 0) && !counts(qs, 1));
            assert(named_parts(qs, 0) =~= seq![]);
            assert(named_parts(qs, 1) =~= seq![]);
            assert(named_parts(qs, 2) =~= seq![]);
            assert(path_parts(base) =~= seq![Part::Root]);
            assert(path_parts(path_join(base, name)) =~= path_parts(base).push(Part::Name(name)));
        }
    }
}

/// Names below a directory are its components and then the names; and seen from the directory, they
/// are the names again. An absolute path is the same from everywhere.
pub proof fn lemma_joined_below(base: Seq<char>, names: Seq<Seq<char>>, other: Seq<char>)
    requires
        base.len() > 0,
        names.len() > 0,
        forall|i: int| 0 <= i < names.len() ==> plain_name(#[trigger] names[i]),
    ensures
        ({
            let rel = text::joined(names, "/"@);
            &&& path_parts(path_join(base, rel)) == path_parts(base) + as_parts(names)
            &&& path_parts(base).len() > 0 ==> path_below(path_join(base, rel), base) == Some(rel)
        }),
        absolute(other) ==> path_join(base, other) == other,
{
    lemma_joined_parts(base, names);
    let rel = text::joined(names, "/"@);
    let (p, r) = (path_parts(path_join(base, rel)), path_parts(base));
    assert(p.skip(r.len() as int) =~= as_parts(names));
    assert(part_texts(as_parts(names)) =~= names);
    assert(r.is_prefix_of(p));
}

proof fn lemma_joined_parts(base: Seq<char>, names: Seq<Seq<char>>)
    requires
        base.len() > 0,
        names.len() > 0,
        forall|i: int| 0 <= i < names.len() ==> plain_name(#[trigger] names[i]),
    ensures
        !absolute(text::joined(names, "/"@)),
        path_join(base, text::joined(names, "/"@)).len() > 0,
        text::joined(names, "/"@).len() > 0,
        path_parts(path_join(base, text::joined(names, "/"@))) == path_parts(base) + as_parts(
            names,
        ),
    decreases names.len(),
{
    reveal_strlit("/");
    let rel = text::joined(names, "/"@);
    assert(plain_name(names[names.len() - 1]));
    if names.len() == 1 {
        assert(plain_name(names[0]));
        lemma_join_first(base, names[0]);
        assert(path_parts(base).push(Part::Name(names[0])) =~= path_parts(base) + as_parts(names));
    } else {
        let init = names.drop_last();
        assert forall|i: int| 0 <= i < init.len() implies plain_name(#[trigger] init[i]) by {
            assert(init[i] == names[i]);
        }
        lemma_joined_parts(base, init);
        let before = text::joined(init, "/"@);
        assert("/"@ =~= seq!['/']);
        assert(rel == before + seq!['/'] + names.last());
        assert(rel[0] == before[0]);
        assert(path_join(base, rel) =~= path_join(base, before) + seq!['/'] + names.last());
        lemma_components_one_by_one(path_join(base, before), names.last());
        assert(path_parts(path_join(base, rel)) =~= path_parts(base) + as_parts(names));
    }
}

/// Does a path have another component than a root at a place, or none?
pub open spec fn departs(p: Seq<Part>, root: Seq<Part>, i: int) -> bool {
    0 <= i < root.len() && (i >= p.len() || p[i] != root[i])
}

/// A path lies under a root exactly where it starts with the root's components.
pub proof fn lemma_below_when(path: Seq<char>, root: Seq<char>)
    ensures
        path_below(path, root) is None <==> exists|i: int| #[trigger]
            departs(path_parts(path), path_parts(root), i),
        path_parts(root).len() == 0 ==> path_below(path, root) == Some(path),
{
    let (p, r) = (path_parts(path), path_parts(root));
    if r.len() > p.len() {
        assert(departs(p, r, p.len() as int));
        assert(!r.is_prefix_of(p));
    } else {
        let q = p.subrange(0, r.len() as int);
        if forall|i: int| !#[trigger] departs(p, r, i) {
            assert forall|i: int| 0 <= i < r.len() implies q[i] == r[i] by {
                assert(!departs(p, r, i));
            }
            assert(q =~= r);
            assert(r.is_prefix_of(p));
        } else {
            let i = choose|i: int| #[trigger] departs(p, r, i);
            assert(q[i] != r[i]);
            assert(!r.is_prefix_of(p));
        }
    }
}

} // verus!
