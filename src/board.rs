use vstd::prelude::*;

verus! {

/// A single step of the agent. Stepping into a crate pushes it one tile further.
#[derive(PartialEq, Eq, Clone, Copy, Debug, Structural)]
pub enum Action {
    Up,
    Down,
    Left,
    Right,
}

/// The displacement of one step in direction `a`; `y` grows downwards.
pub open spec fn delta(a: Action) -> (int, int) {
    match a {
        Action::Up => (0, -1),
        Action::Down => (0, 1),
        Action::Left => (-1, 0),
        Action::Right => (1, 0),
    }
}

/// The mathematical value of a state: the agent's tile and the set of
/// row-major tile indices that hold a crate.
pub type Config = ((int, int), Set<int>);

/// The static part of a level, shared by every state of one puzzle.
pub struct Board {
    goals: Vec<(u32, u32)>,
    goal_dists: Vec<Vec<Option<u32>>>,
    goal_tiles: Vec<bool>,
    walls: Vec<bool>,
    dead_tiles: Vec<bool>,
    inside: Vec<bool>,
    width: usize,
    height: usize,
}

/// The changing part of a level: the agent and one occupancy bit per tile.
/// Two states are equal when they hold the same number of bits (as all
/// states of one board do), the same agent tile and the same set of occupied
/// tiles; equal states then have identical bits, so they also hash alike.
#[derive(Debug, Hash)]
pub struct BoardState {
    player: (u32, u32),
    crates: Vec<bool>,
}

/// Why a level was refused.
#[derive(PartialEq, Eq, Clone, Copy, Debug, Structural)]
pub enum LevelError {
    /// A character outside the level alphabet.
    InvalidCharacter,
    /// No non-empty line.
    Empty,
    /// No agent.
    NoPlayer,
    /// More than one agent.
    MultiplePlayers,
    /// The numbers of crates and goals differ.
    CountMismatch,
    /// The agent can walk to the edge of the grid.
    NotEnclosed,
    /// A side is zero or longer than `MAX_SIDE`.
    TooLarge,
    /// The masks do not fit the grid, a tile lies outside it, or a crate
    /// stands on a wall.
    Malformed,
}

impl LevelError {
    /// A sentence describing the error.
    pub fn message(&self) -> (r: &'static str)
        ensures
            *self == LevelError::InvalidCharacter ==> r@ == "Level contains invalid character"@,
            *self == LevelError::Empty ==> r@ == "Level is empty"@,
            *self == LevelError::NoPlayer ==> r@ == "Level has no player"@,
            *self == LevelError::MultiplePlayers ==> r@ == "Level has more than one player"@,
            *self == LevelError::CountMismatch ==> r@ == "Number of crates and number of goals are not the same"@,
            *self == LevelError::NotEnclosed ==> r@ == "Player is not enclosed in walls"@,
            *self == LevelError::TooLarge ==> r@ == "Level is too large"@,
            *self == LevelError::Malformed ==> r@ == "Level description is malformed"@,
    {
        match self {
            LevelError::InvalidCharacter => "Level contains invalid character",
            LevelError::Empty => "Level is empty",
            LevelError::NoPlayer => "Level has no player",
            LevelError::MultiplePlayers => "Level has more than one player",
            LevelError::CountMismatch => "Number of crates and number of goals are not the same",
            LevelError::NotEnclosed => "Player is not enclosed in walls",
            LevelError::TooLarge => "Level is too large",
            LevelError::Malformed => "Level description is malformed",
        }
    }
}

/// Largest side of a level; keeps every tile index and distance in `u32`.
pub const MAX_SIDE: usize = 0xffff;

/// The letter that shows action `a`.
pub open spec fn action_letter(a: Action) -> char {
    match a {
        Action::Up => 'u',
        Action::Down => 'd',
        Action::Left => 'l',
        Action::Right => 'r',
    }
}

/// The actions of `path`, one letter each.
pub fn path_to_string(path: &Vec<Action>) -> (r: String)
    ensures
        r@ == path@.map_values(|a: Action| action_letter(a)),
{
    let mut r = String::new();
    let mut i: usize = 0;
    while i < path.len()
        invariant
            0 <= i <= path@.len(),
            r@ == path@.subrange(0, i as int).map_values(|a: Action| action_letter(a)),
        decreases path.len() - i,
    {
        let ghost before = r@;
        match path[i] {
            Action::Up => {
                proof {
                    reveal_strlit("u");
                }
                r.append("u");
            },
            Action::Down => {
                proof {
                    reveal_strlit("d");
                }
                r.append("d");
            },
            Action::Left => {
                proof {
                    reveal_strlit("l");
                }
                r.append("l");
            },
            Action::Right => {
                proof {
                    reveal_strlit("r");
                }
                r.append("r");
            },
        }
        assert(r@ == before.push(action_letter(path@[i as int])));
        i += 1;
        assert(path@.subrange(0, i as int).map_values(|a: Action| action_letter(a)) =~= before.push(
            action_letter(path@[i - 1]),
        ));
    }
    assert(path@.subrange(0, path@.len() as int) =~= path@);
    r
}

/// Characters a level description may hold.
pub open spec fn level_char(c: char) -> bool {
    c == '#' || c == 'p' || c == 'P' || c == 'b' || c == 'B' || c == '@' || c == '+' || c == '$' || c == '*'
        || c == '.' || c == ' ' || c == '-' || c == '_' || c == '\n'
}

fn is_level_char(c: char) -> (r: bool)
    ensures
        r == level_char(c),
{
    c == '#' || c == 'p' || c == 'P' || c == 'b' || c == 'B' || c == '@' || c == '+' || c == '$' || c == '*'
        || c == '.' || c == ' ' || c == '-' || c == '_' || c == '\n'
}

/// `line` without its trailing spaces.
pub open spec fn trimmed(line: Seq<char>) -> Seq<char>
    decreases line.len(),
{
    if line.len() > 0 && line.last() == ' ' {
        trimmed(line.drop_last())
    } else {
        line
    }
}

/// The lines of `t`, split at line breaks, with their trailing spaces.
pub open spec fn raw_lines(t: Seq<char>) -> Seq<Seq<char>>
    decreases t.len(),
{
    if t.len() == 0 {
        seq![Seq::<char>::empty()]
    } else {
        let ls = raw_lines(t.drop_last());
        if t.last() == '\n' {
            ls.push(Seq::<char>::empty())
        } else {
            ls.update(ls.len() - 1, ls.last().push(t.last()))
        }
    }
}

proof fn lemma_raw_lines_len(t: Seq<char>)
    ensures
        raw_lines(t).len() >= 1,
    decreases t.len(),
{
    if t.len() > 0 {
        lemma_raw_lines_len(t.drop_last());
    }
}

/// The lines of `t` without their trailing spaces.
pub open spec fn text_lines(t: Seq<char>) -> Seq<Seq<char>> {
    raw_lines(t).map_values(|l: Seq<char>| trimmed(l))
}

/// The first line at or after `i` that is not empty, or the number of lines.
pub open spec fn first_filled(ls: Seq<Seq<char>>, i: int) -> int
    decreases ls.len() - i,
{
    if i < 0 || i >= ls.len() || ls[i].len() > 0 {
        i
    } else {
        first_filled(ls, i + 1)
    }
}

/// The first line at or after `i` that is empty, or the number of lines.
pub open spec fn first_blank(ls: Seq<Seq<char>>, i: int) -> int
    decreases ls.len() - i,
{
    if i < 0 || i >= ls.len() || ls[i].len() == 0 {
        i
    } else {
        first_blank(ls, i + 1)
    }
}

/// The longest of lines `lo .. hi`.
pub open spec fn max_len(ls: Seq<Seq<char>>, lo: int, hi: int) -> int
    decreases hi - lo,
{
    if hi <= lo {
        0
    } else if ls[hi - 1].len() > max_len(ls, lo, hi - 1) {
        ls[hi - 1].len() as int
    } else {
        max_len(ls, lo, hi - 1)
    }
}

/// Index of the first line of the level in text `t`.
pub open spec fn block_start(t: Seq<char>) -> int {
    first_filled(text_lines(t), 0)
}

/// Index just past the last line of the level in text `t`: the level is the
/// first run of non-empty lines.
pub open spec fn block_end(t: Seq<char>) -> int {
    first_blank(text_lines(t), block_start(t))
}

/// Number of rows of the level in `t`.
pub open spec fn text_height(t: Seq<char>) -> int {
    block_end(t) - block_start(t)
}

/// Number of columns of the level in `t`: its longest line.
pub open spec fn text_width(t: Seq<char>) -> int {
    max_len(text_lines(t), block_start(t), block_end(t))
}

/// The character at column `c` of row `r` of the level in `t`; short lines
/// read as floor past their end.
pub open spec fn text_cell(t: Seq<char>, c: int, r: int) -> char {
    let line = text_lines(t)[block_start(t) + r];
    if 0 <= c < line.len() {
        line[c]
    } else {
        ' '
    }
}

/// Character `ch` marks a tile of kind `kind`: 0 the agent, 1 a goal, 2 a
/// crate.
pub open spec fn marks_kind(kind: int, ch: char) -> bool {
    if kind == 0 {
        ch == 'p' || ch == '@' || ch == 'P' || ch == '+'
    } else if kind == 1 {
        ch == 'P' || ch == '+' || ch == 'B' || ch == '*' || ch == '.'
    } else {
        ch == 'b' || ch == '$' || ch == 'B' || ch == '*'
    }
}

/// The tiles of kind `kind` in columns left of `c` of row `r`, left to right.
pub open spec fn row_marks(t: Seq<char>, kind: int, r: int, c: int) -> Seq<(int, int)>
    decreases c,
{
    if c <= 0 {
        seq![]
    } else if marks_kind(kind, text_cell(t, c - 1, r)) {
        row_marks(t, kind, r, c - 1).push((c - 1, r))
    } else {
        row_marks(t, kind, r, c - 1)
    }
}

/// The tiles of kind `kind` in the rows above `r`, in row-major order.
pub open spec fn rows_marks(t: Seq<char>, kind: int, r: int) -> Seq<(int, int)>
    decreases r,
{
    if r <= 0 {
        seq![]
    } else {
        rows_marks(t, kind, r - 1) + row_marks(t, kind, r - 1, text_width(t))
    }
}

/// Every tile of kind `kind` of the level in `t`, in row-major order.
pub open spec fn level_marks(t: Seq<char>, kind: int) -> Seq<(int, int)> {
    rows_marks(t, kind, text_height(t))
}

/// `walls` is the wall mask of the level in `t`.
pub open spec fn text_walls(t: Seq<char>, walls: Seq<bool>) -> bool {
    &&& walls.len() == text_width(t) * text_height(t)
    &&& forall|x: int, y: int|
        0 <= x < text_width(t) && 0 <= y < text_height(t) ==> #[trigger] walls[y * text_width(t) + x] == (text_cell(t, x, y)
            == '#')
}

/// The coordinates of `v` are those of `m`, in order.
pub open spec fn same_tiles(v: Seq<(u32, u32)>, m: Seq<(int, int)>) -> bool {
    &&& v.len() == m.len()
    &&& forall|j: int| 0 <= j < v.len() ==> (#[trigger] v[j]).0 as int == m[j].0 && v[j].1 as int == m[j].1
}

proof fn lemma_grid_inj(w: int, x1: int, y1: int, x2: int, y2: int)
    requires
        0 <= x1 < w,
        0 <= x2 < w,
        y1 * w + x1 == y2 * w + x2,
    ensures
        x1 == x2 && y1 == y2,
{
    assert(y1 == y2) by (nonlinear_arith)
        requires
            0 <= x1 < w,
            0 <= x2 < w,
            y1 * w + x1 == y2 * w + x2,
    ;
}

/// Reading cell `(c, r)` extends the marks of kind `kind` by it when it
/// carries that kind.
proof fn lemma_marks_step(
    t: Seq<char>,
    kind: int,
    r: int,
    c: int,
    v0: Seq<(u32, u32)>,
    v1: Seq<(u32, u32)>,
    here: (u32, u32),
)
    requires
        0 <= c,
        here.0 as int == c && here.1 as int == r,
        same_tiles(v0, rows_marks(t, kind, r) + row_marks(t, kind, r, c)),
        marks_kind(kind, text_cell(t, c, r)) ==> v1 == v0.push(here),
        !marks_kind(kind, text_cell(t, c, r)) ==> v1 == v0,
    ensures
        same_tiles(v1, rows_marks(t, kind, r) + row_marks(t, kind, r, c + 1)),
{
    let m0 = rows_marks(t, kind, r) + row_marks(t, kind, r, c);
    let m1 = rows_marks(t, kind, r) + row_marks(t, kind, r, c + 1);
    if marks_kind(kind, text_cell(t, c, r)) {
        assert(m1 =~= m0.push((c, r)));
        assert forall|j: int| 0 <= j < v1.len() implies (#[trigger] v1[j]).0 as int == m1[j].0 && v1[j].1 as int == m1[j].1 by {
            if j < v0.len() {
                assert(v1[j] == v0[j]);
            }
        }
    } else {
        assert(m1 =~= m0);
    }
}

/// Past the end of its line a row holds no marks.
proof fn lemma_row_marks_pad(t: Seq<char>, kind: int, r: int, c: int)
    requires
        0 <= text_lines(t)[block_start(t) + r].len() <= c,
    ensures
        row_marks(t, kind, r, c) == row_marks(t, kind, r, text_lines(t)[block_start(t) + r].len() as int),
    decreases c,
{
    if c > text_lines(t)[block_start(t) + r].len() {
        lemma_row_marks_pad(t, kind, r, c - 1);
    }
}

/// Two masks that agree on the grid admit the same walks.
proof fn lemma_open_walk_same(w: int, h: int, a: Seq<bool>, b: Seq<bool>, x: int, y: int, acts: Seq<Action>)
    requires
        forall|i: int, j: int| 0 <= i < w && 0 <= j < h ==> #[trigger] a[j * w + i] == b[j * w + i],
    ensures
        open_walk(w, h, a, x, y, acts) == open_walk(w, h, b, x, y, acts),
    decreases acts.len(),
{
    if acts.len() > 0 {
        lemma_open_walk_same(w, h, a, b, x + delta(acts[0]).0, y + delta(acts[0]).1, acts.drop_first());
    }
    if 0 <= x < w && 0 <= y < h {
        assert(a[y * w + x] == b[y * w + x]);
    }
}

/// `line` without its trailing spaces.
fn trim_end(line: Vec<char>) -> (r: Vec<char>)
    ensures
        r@ == trimmed(line@),
{
    let ghost orig = line@;
    let mut line = line;
    while line.len() > 0 && line[line.len() - 1] == ' '
        invariant
            trimmed(line@) == trimmed(orig),
        ensures
            trimmed(line@) == trimmed(orig),
            line@.len() > 0 ==> line@.last() != ' ',
        decreases line.len(),
    {
        let ghost before = line@;
        line.pop();
        assert(line@ =~= before.drop_last());
    }
    line
}

/// The direction of the push that added child `j` while one tile was
/// expanded, given the numbers of children after the first three pushes.
spec fn dir_at(j: int, l1: int, l2: int, l3: int) -> Action {
    if j < l1 {
        Action::Up
    } else if j < l2 {
        Action::Down
    } else if j < l3 {
        Action::Left
    } else {
        Action::Right
    }
}

fn offset(a: Action) -> (r: (i64, i64))
    ensures
        r.0 == delta(a).0,
        r.1 == delta(a).1,
{
    match a {
        Action::Up => (0, -1),
        Action::Down => (0, 1),
        Action::Left => (-1, 0),
        Action::Right => (1, 0),
    }
}

/// A vector of `n` copies of `v`.
pub(crate) fn filled<T: Copy>(v: T, n: usize) -> (r: Vec<T>)
    ensures
        r@ == Seq::new(n as nat, |i: int| v),
{
    let mut r: Vec<T> = Vec::new();
    let mut i: usize = 0;
    while i < n
        invariant
            0 <= i <= n,
            r@ == Seq::new(i as nat, |j: int| v),
        decreases n - i,
    {
        r.push(v);
        i += 1;
        assert(r@ =~= Seq::new(i as nat, |j: int| v));
    }
    r
}

fn copy_bits(v: &Vec<bool>) -> (r: Vec<bool>)
    ensures
        r@ == v@,
{
    let mut r: Vec<bool> = Vec::new();
    let mut i: usize = 0;
    while i < v.len()
        invariant
            0 <= i <= v.len(),
            r@ == v@.subrange(0, i as int),
        decreases v.len() - i,
    {
        r.push(v[i]);
        i += 1;
        assert(r@ =~= v@.subrange(0, i as int));
    }
    assert(v@.subrange(0, v.len() as int) =~= v@);
    r
}

proof fn lemma_grid_index(w: int, h: int, x: int, y: int)
    requires
        0 <= x < w,
        0 <= y < h,
    ensures
        0 <= y * w + x < w * h,
{
    assert(0 <= y * w + x < w * h) by (nonlinear_arith)
        requires
            0 <= x < w,
            0 <= y < h,
    ;
}

/// `(x, y)` lies outside the grid of `w` by `h` tiles, or is a wall of the
/// row-major mask `walls`.
pub open spec fn grid_wall(w: int, h: int, walls: Seq<bool>, x: int, y: int) -> bool {
    !(0 <= x < w && 0 <= y < h) || walls[y * w + x]
}

/// `(x, y)` is on the edge of the grid.
pub open spec fn on_border(w: int, h: int, x: int, y: int) -> bool {
    x == 0 || y == 0 || x == w - 1 || y == h - 1
}

/// The walk `acts` from `(x, y)` stays on tiles that are not walls, the
/// first tile included.
pub open spec fn open_walk(w: int, h: int, walls: Seq<bool>, x: int, y: int, acts: Seq<Action>) -> bool
    decreases acts.len(),
{
    &&& !grid_wall(w, h, walls, x, y)
    &&& acts.len() > 0 ==> open_walk(w, h, walls, x + delta(acts[0]).0, y + delta(acts[0]).1, acts.drop_first())
}

/// The tile where the walk `acts` from `(x, y)` ends.
pub open spec fn end_of(x: int, y: int, acts: Seq<Action>) -> (int, int)
    decreases acts.len(),
{
    if acts.len() == 0 {
        (x, y)
    } else {
        end_of(x + delta(acts[0]).0, y + delta(acts[0]).1, acts.drop_first())
    }
}

/// Some walk over tiles that are not walls leads from `(x, y)` to the edge
/// of the grid: the agent there is not enclosed.
pub open spec fn escapes(w: int, h: int, walls: Seq<bool>, x: int, y: int) -> bool {
    exists|acts: Seq<Action>| #[trigger] open_walk(w, h, walls, x, y, acts) && on_border(
        w,
        h,
        end_of(x, y, acts).0,
        end_of(x, y, acts).1,
    )
}

/// Some walk over tiles that are not walls leads from `(x, y)` to `(tx, ty)`.
pub open spec fn reaches(w: int, h: int, walls: Seq<bool>, x: int, y: int, tx: int, ty: int) -> bool {
    exists|acts: Seq<Action>| #[trigger] open_walk(w, h, walls, x, y, acts) && end_of(x, y, acts) == (tx, ty)
}

/// A walk that ends next to a tile that is not a wall extends to it.
proof fn lemma_open_walk_push(w: int, h: int, walls: Seq<bool>, x: int, y: int, acts: Seq<Action>, a: Action)
    requires
        open_walk(w, h, walls, x, y, acts),
        !grid_wall(w, h, walls, end_of(x, y, acts).0 + delta(a).0, end_of(x, y, acts).1 + delta(a).1),
    ensures
        open_walk(w, h, walls, x, y, acts.push(a)),
        end_of(x, y, acts.push(a)) == (end_of(x, y, acts).0 + delta(a).0, end_of(x, y, acts).1 + delta(a).1),
    decreases acts.len(),
{
    if acts.len() > 0 {
        let b = acts[0];
        assert(acts.push(a)[0] == b);
        assert(acts.push(a).drop_first() =~= acts.drop_first().push(a));
        lemma_open_walk_push(w, h, walls, x + delta(b).0, y + delta(b).1, acts.drop_first(), a);
    } else {
        assert(acts.push(a)[0] == a);
        assert(acts.push(a).drop_first() =~= Seq::<Action>::empty());
        assert(open_walk(w, h, walls, x + delta(a).0, y + delta(a).1, Seq::<Action>::empty()));
        assert(end_of(x + delta(a).0, y + delta(a).1, Seq::<Action>::empty()) == (x + delta(a).0, y + delta(a).1));
    }
}

/// Two to the power `n`.
pub open spec fn pow2n(n: nat) -> nat
    decreases n,
{
    if n == 0 {
        1
    } else {
        2 * pow2n((n - 1) as nat)
    }
}

/// The number whose binary digits, most significant first, are `bits`.
pub open spec fn bits_value(bits: Seq<bool>) -> nat
    decreases bits.len(),
{
    if bits.len() == 0 {
        0
    } else {
        2 * bits_value(bits.drop_last()) + if bits.last() {
            1nat
        } else {
            0nat
        }
    }
}

proof fn lemma_bits_value_bound(bits: Seq<bool>)
    ensures
        bits_value(bits) < pow2n(bits.len()),
    decreases bits.len(),
{
    if bits.len() > 0 {
        lemma_bits_value_bound(bits.drop_last());
    }
}

proof fn lemma_bits_value_inj(a: Seq<bool>, b: Seq<bool>)
    requires
        a.len() == b.len(),
        bits_value(a) == bits_value(b),
    ensures
        a == b,
    decreases a.len(),
{
    if a.len() > 0 {
        assert(a.last() == b.last());
        lemma_bits_value_inj(a.drop_last(), b.drop_last());
        assert(a =~= a.drop_last().push(a.last()));
        assert(b =~= b.drop_last().push(b.last()));
    } else {
        assert(a =~= b);
    }
}

proof fn lemma_code_split(i1: int, v1: int, i2: int, v2: int, p: int)
    requires
        0 <= v1 < p,
        0 <= v2 < p,
        0 <= i1,
        0 <= i2,
        i1 * p + v1 == i2 * p + v2,
    ensures
        i1 == i2 && v1 == v2,
{
    assert(i1 == i2) by (nonlinear_arith)
        requires
            0 <= v1 < p,
            0 <= v2 < p,
            i1 * p + v1 == i2 * p + v2,
    ;
}

impl BoardState {
    /// The agent's tile.
    pub closed spec fn player_pos(&self) -> (int, int) {
        (self.player.0 as int, self.player.1 as int)
    }

    /// The occupancy bits as stored.
    pub closed spec fn bits(&self) -> Seq<bool> {
        self.crates@
    }

    /// The row-major indices of the tiles that hold a crate.
    pub closed spec fn occupied(&self) -> Set<int> {
        Set::new(|i: int| 0 <= i < self.crates@.len() && self.crates@[i])
    }
}

fn bit(v: &Vec<bool>, i: usize) -> (r: bool)
    ensures
        r == (i < v@.len() && v@[i as int]),
{
    i < v.len() && v[i]
}

impl PartialEq for BoardState {
    fn eq(&self, other: &BoardState) -> (r: bool) {
        if self.player.0 != other.player.0 || self.player.1 != other.player.1 || self.crates.len() != other.crates.len() {
            return false;
        }
        let n = if self.crates.len() < other.crates.len() {
            other.crates.len()
        } else {
            self.crates.len()
        };
        let mut i: usize = 0;
        while i < n
            invariant
                0 <= i <= n,
                n >= self.crates@.len(),
                n >= other.crates@.len(),
                forall|j: int| 0 <= j < i ==> (#[trigger] self.occupied().contains(j) == other.occupied().contains(j)),
            decreases n - i,
        {
            if bit(&self.crates, i) != bit(&other.crates, i) {
                assert(self.occupied().contains(i as int) != other.occupied().contains(i as int));
                return false;
            }
            i += 1;
        }
        assert(self.occupied() =~= other.occupied());
        true
    }
}

impl BoardState {
    /// The agent's tile.
    pub fn player(&self) -> (r: (u32, u32))
        ensures
            (r.0 as int, r.1 as int) == self.player_pos(),
    {
        self.player
    }
}

impl Clone for BoardState {
    fn clone(&self) -> (r: BoardState)
        ensures
            r@ == self@,
            r.bits() == self.bits(),
    {
        let r = BoardState { player: self.player, crates: copy_bits(&self.crates) };
        assert(r.occupied() =~= self.occupied());
        r
    }
}

impl vstd::std_specs::cmp::PartialEqSpecImpl for BoardState {
    open spec fn obeys_eq_spec() -> bool {
        true
    }

    open spec fn eq_spec(&self, other: &BoardState) -> bool {
        self@ == other@ && self.bits().len() == other.bits().len()
    }
}

impl Eq for BoardState {

}

impl View for BoardState {
    type V = Config;

    open spec fn view(&self) -> Config {
        (self.player_pos(), self.occupied())
    }
}

impl Board {
    /// Number of columns.
    pub closed spec fn width(&self) -> int {
        self.width as int
    }

    /// Number of rows.
    pub closed spec fn height(&self) -> int {
        self.height as int
    }

    /// Number of tiles.
    pub open spec fn size(&self) -> int {
        self.width() * self.height()
    }

    /// `(x, y)` is a tile of the grid.
    pub open spec fn in_grid(&self, x: int, y: int) -> bool {
        0 <= x < self.width() && 0 <= y < self.height()
    }

    /// Row-major index of tile `(x, y)`.
    pub open spec fn index(&self, x: int, y: int) -> int {
        y * self.width() + x
    }

    /// Tiles outside the grid count as walls.
    pub closed spec fn wall_at(&self, x: int, y: int) -> bool {
        !self.in_grid(x, y) || self.walls@[self.index(x, y)]
    }

    /// `(x, y)` is a goal tile.
    pub closed spec fn goal_at(&self, x: int, y: int) -> bool {
        self.in_grid(x, y) && self.goal_tiles@[self.index(x, y)]
    }

    /// `(x, y)` is a dead tile: a crate there can never reach a goal.
    pub closed spec fn dead_at(&self, x: int, y: int) -> bool {
        self.in_grid(x, y) && self.dead_tiles@[self.index(x, y)]
    }

    /// The goal tiles, in the order the level lists them.
    pub closed spec fn goal_list(&self) -> Seq<(u32, u32)> {
        self.goals@
    }

    /// Recorded push distance from tile `(x, y)` to goal number `k`.
    pub closed spec fn dist(&self, k: int, x: int, y: int) -> Option<u32> {
        self.goal_dists@[k]@[self.index(x, y)]
    }

    /// The tiles the agent could reach from its start, walking over
    /// anything but walls, by tile index.
    pub closed spec fn inside_mask(&self) -> Seq<bool> {
        self.inside@
    }

    /// The distance field of goal number `k`, by tile index.
    pub closed spec fn field(&self, k: int) -> Seq<Option<u32>> {
        self.goal_dists@[k]@
    }

    /// The board is well formed: the masks cover the grid, the goal tiles
    /// are exactly the listed goals, no goal tile is dead, and every
    /// recorded distance is smaller than the number of tiles.
    pub closed spec fn wf(&self) -> bool {
        &&& 1 <= self.width <= MAX_SIDE
        &&& 1 <= self.height <= MAX_SIDE
        &&& self.walls.len() == self.size()
        &&& self.goal_tiles.len() == self.size()
        &&& self.dead_tiles.len() == self.size()
        &&& self.goal_dists.len() == self.goals.len()
        &&& forall|k: int| 0 <= k < self.goals.len() ==> #[trigger] self.goal_dists@[k].len() == self.size()
        &&& forall|k: int| 0 <= k < self.goals.len() ==> {
            &&& self.in_grid(#[trigger] self.goals@[k].0 as int, self.goals@[k].1 as int)
            &&& self.goal_tiles@[self.index(self.goals@[k].0 as int, self.goals@[k].1 as int)]
        }
        &&& forall|k: int, x: int, y: int|
            0 <= k < self.goals.len() && self.in_grid(x, y) && (#[trigger] self.goal_dists@[k]@[self.index(x, y)]).is_some()
                ==> self.goal_dists@[k]@[self.index(x, y)].unwrap() < self.size()
        &&& forall|x: int, y: int| self.in_grid(x, y) && #[trigger] self.dead_tiles@[self.index(x, y)]
            ==> !self.goal_tiles@[self.index(x, y)]
        &&& forall|x: int, y: int| self.in_grid(x, y) && #[trigger] self.goal_tiles@[self.index(x, y)] ==> exists|k: int|
            0 <= k < self.goals.len() && (#[trigger] self.goals@[k]).0 as int == x && self.goals@[k].1 as int == y
    }

    /// Each goal's distance field is zero on the goal, when the goal is
    /// passable, and grows by at most one per step between passable tiles.
    pub closed spec fn distances_ok(&self) -> bool {
        &&& forall|k: int, x: int, y: int, a: Action| 0 <= k < self.goals.len() ==> #[trigger] self.step_bounded(
            self.goal_dists@[k]@,
            x,
            y,
            a,
        )
        &&& forall|k: int| 0 <= k < self.goals.len() && self.passable(#[trigger] self.goals@[k].0 as int, self.goals@[k].1 as int)
            ==> self.goal_dists@[k]@[self.index(self.goals@[k].0 as int, self.goals@[k].1 as int)] == Some(0u32)
    }

    /// A state fits this board: there is one occupancy bit per tile, no
    /// crate stands on a wall, and the agent stands on a free tile.
    pub closed spec fn state_wf(&self, s: &BoardState) -> bool {
        &&& s.crates.len() == self.size()
        &&& self.in_grid(s.player.0 as int, s.player.1 as int)
        &&& forall|i: int| 0 <= i < self.size() && #[trigger] s.crates@[i] ==> !self.walls@[i]
        &&& !s.crates@[self.index(s.player.0 as int, s.player.1 as int)]
        &&& !self.walls@[self.index(s.player.0 as int, s.player.1 as int)]
    }

    /// A crate stands on `(x, y)` in configuration `c`.
    pub open spec fn crate_in(&self, c: Config, x: int, y: int) -> bool {
        self.in_grid(x, y) && c.1.contains(self.index(x, y))
    }

    /// Neither a wall nor a crate.
    pub open spec fn free_in(&self, c: Config, x: int, y: int) -> bool {
        !self.wall_at(x, y) && !self.crate_in(c, x, y)
    }

    /// Every goal tile holds a crate.
    pub open spec fn solved(&self, c: Config) -> bool {
        forall|k: int| 0 <= k < self.goal_list().len() ==> #[trigger] self.crate_in(
            c,
            self.goal_list()[k].0 as int,
            self.goal_list()[k].1 as int,
        )
    }

    /// Performing `acts` from `c` is legal and ends in a solved state.
    pub open spec fn solution(&self, c: Config, acts: Seq<Action>) -> bool {
        &&& self.run(c, acts) is Some
        &&& self.solved(self.run(c, acts).unwrap())
    }

    /// One step of the agent under the rules of the game: it walks onto a
    /// free tile, or pushes a crate onto the free tile behind it.
    pub open spec fn step(&self, c: Config, a: Action) -> Option<Config> {
        let nx = c.0.0 + delta(a).0;
        let ny = c.0.1 + delta(a).1;
        let bx = nx + delta(a).0;
        let by = ny + delta(a).1;
        if self.wall_at(nx, ny) {
            None
        } else if !self.crate_in(c, nx, ny) {
            Some(((nx, ny), c.1))
        } else if self.free_in(c, bx, by) {
            Some(((nx, ny), c.1.remove(self.index(nx, ny)).insert(self.index(bx, by))))
        } else {
            None
        }
    }

    /// The configuration reached by performing `acts` from `c`, if every step
    /// is legal.
    pub open spec fn run(&self, c: Config, acts: Seq<Action>) -> Option<Config>
        decreases acts.len(),
    {
        if acts.len() == 0 {
            Some(c)
        } else {
            match self.step(c, acts[0]) {
                Some(n) => self.run(n, acts.drop_first()),
                None => None,
            }
        }
    }

    proof fn lemma_index_bound(&self, x: int, y: int)
        requires
            self.wf(),
            self.in_grid(x, y),
        ensures
            0 <= self.index(x, y) < self.size(),
    {
        let w = self.width();
        let h = self.height();
        assert(0 <= y * w + x < w * h) by (nonlinear_arith)
            requires
                0 <= x < w,
                0 <= y < h,
        ;
    }

    /// Tile index of an in-grid coordinate.
    fn tile(&self, x: u32, y: u32) -> (r: usize)
        requires
            self.wf(),
            self.in_grid(x as int, y as int),
        ensures
            r == self.index(x as int, y as int),
            r < self.size(),
    {
        proof {
            self.lemma_index_bound(x as int, y as int);
        }
        y as usize * self.width + x as usize
    }

    fn in_bounds(&self, x: i64, y: i64) -> (r: bool)
        requires
            self.wf(),
        ensures
            r == self.in_grid(x as int, y as int),
    {
        0 <= x && 0 <= y && x < self.width as i64 && y < self.height as i64
    }

    fn is_goal(&self, x: i64, y: i64) -> (r: bool)
        requires
            self.wf(),
        ensures
            r == self.goal_at(x as int, y as int),
    {
        if self.in_bounds(x, y) {
            self.goal_tiles[self.tile(x as u32, y as u32)]
        } else {
            false
        }
    }

    fn is_wall(&self, x: i64, y: i64) -> (r: bool)
        requires
            self.wf(),
        ensures
            r == self.wall_at(x as int, y as int),
    {
        if self.in_bounds(x, y) {
            self.walls[self.tile(x as u32, y as u32)]
        } else {
            true
        }
    }

    fn is_dead_tile(&self, x: i64, y: i64) -> (r: bool)
        requires
            self.wf(),
        ensures
            r == self.dead_at(x as int, y as int),
    {
        if self.in_bounds(x, y) {
            self.dead_tiles[self.tile(x as u32, y as u32)]
        } else {
            false
        }
    }

    fn is_crate(&self, state: &BoardState, x: i64, y: i64) -> (r: bool)
        requires
            self.wf(),
            self.state_wf(state),
        ensures
            r == self.crate_in(state@, x as int, y as int),
    {
        if self.in_bounds(x, y) {
            state.crates[self.tile(x as u32, y as u32)]
        } else {
            false
        }
    }

    fn is_empty(&self, state: &BoardState, x: i64, y: i64) -> (r: bool)
        requires
            self.wf(),
            self.state_wf(state),
        ensures
            r == self.free_in(state@, x as int, y as int),
    {
        !self.is_wall(x, y) && !self.is_crate(state, x, y)
    }

    /// Whether every goal tile holds a crate.
    pub fn is_goal_state(&self, state: &BoardState) -> (r: bool)
        requires
            self.wf(),
            self.state_wf(state),
        ensures
            r == self.solved(state@),
    {
        let mut k: usize = 0;
        while k < self.goals.len()
            invariant
                self.wf(),
                self.state_wf(state),
                0 <= k <= self.goals.len(),
                forall|j: int| 0 <= j < k ==> #[trigger] self.crate_in(
                    state@,
                    self.goal_list()[j].0 as int,
                    self.goal_list()[j].1 as int,
                ),
            decreases self.goals.len() - k,
        {
            let (x, y) = self.goals[k];
            if !self.is_crate(state, x as i64, y as i64) {
                assert(self.goal_list()[k as int] == (x, y));
                assert(!self.crate_in(
                    state@,
                    self.goal_list()[k as int].0 as int,
                    self.goal_list()[k as int].1 as int,
                ));
                return false;
            }
            k += 1;
        }
        true
    }

    /// Two crates side by side with walls along the same side of both (above
    /// both or below both), or one above the other with walls along the same
    /// side of both (left of both or right of both), and not both on goals:
    /// neither crate can ever move again.
    pub open spec fn frozen_pair_at(&self, c: Config, x: int, y: int) -> bool {
        &&& self.crate_in(c, x, y)
        &&& {
            ||| {
                &&& self.crate_in(c, x + 1, y)
                &&& (self.wall_at(x, y - 1) && self.wall_at(x + 1, y - 1)) || (self.wall_at(x, y + 1) && self.wall_at(
                    x + 1,
                    y + 1,
                ))
                &&& !(self.goal_at(x, y) && self.goal_at(x + 1, y))
            }
            ||| {
                &&& self.crate_in(c, x, y + 1)
                &&& (self.wall_at(x - 1, y) && self.wall_at(x - 1, y + 1)) || (self.wall_at(x + 1, y) && self.wall_at(
                    x + 1,
                    y + 1,
                ))
                &&& !(self.goal_at(x, y) && self.goal_at(x, y + 1))
            }
        }
    }

    /// Some pair of crates of `c` is frozen.
    pub open spec fn has_frozen_pair(&self, c: Config) -> bool {
        exists|x: int, y: int| #[trigger] self.frozen_pair_at(c, x, y)
    }

    fn frozen_pair(&self, state: &BoardState, x: i64, y: i64) -> (r: bool)
        requires
            self.wf(),
            self.state_wf(state),
            self.in_grid(x as int, y as int),
        ensures
            r == self.frozen_pair_at(state@, x as int, y as int),
    {
        if !self.is_crate(state, x, y) {
            return false;
        }
        if self.is_crate(state, x + 1, y) && ((self.is_wall(x, y - 1) && self.is_wall(x + 1, y - 1)) || (self.is_wall(
            x,
            y + 1,
        ) && self.is_wall(x + 1, y + 1))) {
            if !(self.is_goal(x, y) && self.is_goal(x + 1, y)) {
                return true;
            }
        }
        if self.is_crate(state, x, y + 1) && ((self.is_wall(x - 1, y) && self.is_wall(x - 1, y + 1)) || (self.is_wall(
            x + 1,
            y,
        ) && self.is_wall(x + 1, y + 1))) {
            if !(self.is_goal(x, y) && self.is_goal(x, y + 1)) {
                return true;
            }
        }
        false
    }

    /// Cheap deadlock test: some pair of crates is frozen against walls.
    fn is_unsolvable(&self, state: &BoardState) -> (r: bool)
        requires
            self.wf(),
            self.state_wf(state),
        ensures
            r == self.has_frozen_pair(state@),
    {
        let mut y: usize = 0;
        while y < self.height
            invariant
                self.wf(),
                self.state_wf(state),
                0 <= y <= self.height(),
                forall|a: int, b: int| 0 <= b < y ==> !#[trigger] self.frozen_pair_at(state@, a, b),
            decreases self.height - y,
        {
            let mut x: usize = 0;
            while x < self.width
                invariant
                    self.wf(),
                    self.state_wf(state),
                    0 <= y < self.height(),
                    0 <= x <= self.width(),
                    forall|a: int, b: int| 0 <= b < y ==> !#[trigger] self.frozen_pair_at(state@, a, b),
                    forall|a: int| 0 <= a < x ==> !#[trigger] self.frozen_pair_at(state@, a, y as int),
                decreases self.width - x,
            {
                if self.frozen_pair(state, x as i64, y as i64) {
                    return true;
                }
                x += 1;
            }
            y += 1;
        }
        false
    }

    /// The crates of row `y` in the columns left of `x`, left to right.
    pub open spec fn crates_in_row(&self, c: Config, y: int, x: int) -> Seq<(int, int)>
        decreases x,
    {
        if x <= 0 {
            seq![]
        } else if self.crate_in(c, x - 1, y) {
            self.crates_in_row(c, y, x - 1).push((x - 1, y))
        } else {
            self.crates_in_row(c, y, x - 1)
        }
    }

    /// The crates of the rows above `y`, in row-major order.
    pub open spec fn crates_in_rows(&self, c: Config, y: int) -> Seq<(int, int)>
        decreases y,
    {
        if y <= 0 {
            seq![]
        } else {
            self.crates_in_rows(c, y - 1) + self.crates_in_row(c, y - 1, self.width())
        }
    }

    /// Every crate of `c`, in row-major order.
    pub open spec fn crate_list(&self, c: Config) -> Seq<(int, int)> {
        self.crates_in_rows(c, self.height())
    }

    proof fn lemma_row_len(&self, c: Config, y: int, x: int)
        requires
            0 <= x,
        ensures
            self.crates_in_row(c, y, x).len() <= x,
        decreases x,
    {
        if x > 0 {
            self.lemma_row_len(c, y, x - 1);
        }
    }

    proof fn lemma_rows_len(&self, c: Config, y: int)
        requires
            0 <= y,
            0 <= self.width(),
        ensures
            self.crates_in_rows(c, y).len() <= y * self.width(),
        decreases y,
    {
        if y > 0 {
            self.lemma_rows_len(c, y - 1);
            self.lemma_row_len(c, y - 1, self.width());
            assert((y - 1) * self.width() + self.width() == y * self.width()) by (nonlinear_arith);
        }
    }

    /// The coordinates of every crate, in row-major order.
    pub fn iter_crates(&self, state: &BoardState) -> (r: Vec<(u32, u32)>)
        requires
            self.wf(),
            self.state_wf(state),
        ensures
            r@.len() == self.crate_list(state@).len(),
            r@.len() <= self.size(),
            forall|j: int| 0 <= j < r@.len() ==> (r@[j].0 as int, r@[j].1 as int) == #[trigger] self.crate_list(state@)[j],
            forall|j: int| 0 <= j < r@.len() ==> self.crate_in(state@, #[trigger] r@[j].0 as int, r@[j].1 as int),
    {
        let ghost c = state@;
        let mut r: Vec<(u32, u32)> = Vec::new();
        let mut y: usize = 0;
        while y < self.height
            invariant
                self.wf(),
                self.state_wf(state),
                c == state@,
                0 <= y <= self.height(),
                r@.len() == self.crates_in_rows(c, y as int).len(),
                forall|j: int| 0 <= j < r@.len() ==> (r@[j].0 as int, r@[j].1 as int) == #[trigger] self.crates_in_rows(c, y as int)[j],
                forall|j: int| 0 <= j < r@.len() ==> self.crate_in(c, #[trigger] r@[j].0 as int, r@[j].1 as int),
            decreases self.height - y,
        {
            let ghost before = self.crates_in_rows(c, y as int);
            let mut x: usize = 0;
            while x < self.width
                invariant
                    self.wf(),
                    self.state_wf(state),
                    c == state@,
                    0 <= y < self.height(),
                    0 <= x <= self.width(),
                    before == self.crates_in_rows(c, y as int),
                    r@.len() == before.len() + self.crates_in_row(c, y as int, x as int).len(),
                    forall|j: int| 0 <= j < r@.len() ==> (r@[j].0 as int, r@[j].1 as int) == #[trigger] (before + self.crates_in_row(c, y as int, x as int))[j],
                    forall|j: int| 0 <= j < r@.len() ==> self.crate_in(c, #[trigger] r@[j].0 as int, r@[j].1 as int),
                decreases self.width - x,
            {
                let ghost old_row = self.crates_in_row(c, y as int, x as int);
                if self.is_crate(state, x as i64, y as i64) {
                    r.push((x as u32, y as u32));
                    assert(self.crates_in_row(c, y as int, x + 1) == old_row.push((x as int, y as int)));
                    assert(before + old_row.push((x as int, y as int)) =~= (before + old_row).push((x as int, y as int)));
                } else {
                    assert(self.crates_in_row(c, y as int, x + 1) == old_row);
                }
                x += 1;
            }
            assert(self.crates_in_rows(c, y + 1) == before + self.crates_in_row(c, y as int, self.width()));
            y += 1;
        }
        proof {
            self.lemma_rows_len(c, self.height());
            assert(self.height() * self.width() == self.size()) by (nonlinear_arith);
        }
        r
    }

    /// Smallest recorded distance from `(x, y)` to a goal among the first `n`
    /// goals that hold no crate, if any of them has one.
    pub open spec fn nearest(&self, c: Config, x: int, y: int, n: int) -> Option<int>
        decreases n,
    {
        if n <= 0 {
            None
        } else {
            let rest = self.nearest(c, x, y, n - 1);
            let g = self.goal_list()[n - 1];
            if !self.crate_in(c, g.0 as int, g.1 as int) && self.dist(n - 1, x, y).is_some() {
                let d = self.dist(n - 1, x, y).unwrap() as int;
                match rest {
                    Some(m) => Some(if d < m { d } else { m }),
                    None => Some(d),
                }
            } else {
                rest
            }
        }
    }

    /// Lower bound on the pushes the crate on `(x, y)` still needs: zero on a
    /// goal, else the distance to the nearest goal without a crate (zero when
    /// no such goal has a recorded distance).
    pub open spec fn crate_cost(&self, c: Config, x: int, y: int) -> int {
        if self.goal_at(x, y) {
            0
        } else {
            match self.nearest(c, x, y, self.goal_list().len() as int) {
                Some(d) => d,
                None => 0,
            }
        }
    }

    /// The sum of the costs of the crates on the tiles `cs`.
    pub open spec fn cost_sum(&self, c: Config, cs: Seq<(int, int)>) -> int
        decreases cs.len(),
    {
        if cs.len() == 0 {
            0
        } else {
            self.cost_sum(c, cs.drop_last()) + self.crate_cost(c, cs.last().0, cs.last().1)
        }
    }

    /// The heuristic: the sum of the crates' costs.
    pub open spec fn heuristic_value(&self, c: Config) -> int {
        self.cost_sum(c, self.crate_list(c))
    }

    fn nearest_goal(&self, state: &BoardState, x: u32, y: u32) -> (r: Option<u32>)
        requires
            self.wf(),
            self.state_wf(state),
            self.in_grid(x as int, y as int),
        ensures
            match r {
                Some(d) => self.nearest(state@, x as int, y as int, self.goal_list().len() as int)
                    == Some(d as int) && d < self.size(),
                None => self.nearest(state@, x as int, y as int, self.goal_list().len() as int)
                    is None,
            },
    {
        let t = self.tile(x, y);
        let mut best: Option<u32> = None;
        let mut k: usize = 0;
        while k < self.goals.len()
            invariant
                self.wf(),
                self.state_wf(state),
                self.in_grid(x as int, y as int),
                t == self.index(x as int, y as int),
                0 <= t < self.size(),
                0 <= k <= self.goals.len(),
                match best {
                    Some(d) => self.nearest(state@, x as int, y as int, k as int) == Some(d as int)
                        && d < self.size(),
                    None => self.nearest(state@, x as int, y as int, k as int) is None,
                },
            decreases self.goals.len() - k,
        {
            let (gx, gy) = self.goals[k];
            assert(self.goal_list()[k as int] == (gx, gy));
            assert(self.goal_dists@[k as int].len() == self.size());
            if !self.is_crate(state, gx as i64, gy as i64) {
                if let Some(d) = self.goal_dists[k][t] {
                    best = match best {
                        Some(m) => Some(if d < m { d } else { m }),
                        None => Some(d),
                    };
                }
            }
            k += 1;
        }
        best
    }

    /// Sum over the crates not on a goal of the distance to the nearest goal
    /// that holds no crate. It is zero on a solved state, and each distance
    /// is at most the length of any walk over passable tiles from the crate
    /// to that goal.
    pub fn heuristic(&self, state: &BoardState) -> (r: u64)
        requires
            self.wf(),
            self.state_wf(state),
        ensures
            r == self.heuristic_value(state@),
    {
        let ghost c = state@;
        let crates = self.iter_crates(state);
        let ghost cl = self.crate_list(c);
        let mut h: u64 = 0;
        let mut j: usize = 0;
        while j < crates.len()
            invariant
                self.wf(),
                self.state_wf(state),
                c == state@,
                cl == self.crate_list(c),
                crates@.len() == cl.len(),
                crates@.len() <= self.size(),
                forall|i: int| 0 <= i < crates@.len() ==> (crates@[i].0 as int, crates@[i].1 as int) == #[trigger] cl[i],
                forall|i: int| 0 <= i < crates@.len() ==> self.crate_in(c, #[trigger] crates@[i].0 as int, crates@[i].1 as int),
                0 <= j <= crates.len(),
                h == self.cost_sum(c, cl.subrange(0, j as int)),
                h <= j * self.size(),
            decreases crates.len() - j,
        {
            let (x, y) = crates[j];
            assert(self.crate_in(c, crates@[j as int].0 as int, crates@[j as int].1 as int));
            assert(cl.subrange(0, j + 1).drop_last() =~= cl.subrange(0, j as int));
            assert(cl.subrange(0, j + 1).last() == cl[j as int]);
            let mut d: u64 = 0;
            if !self.is_goal(x as i64, y as i64) {
                if let Some(n) = self.nearest_goal(state, x, y) {
                    d = n as u64;
                }
            }
            proof {
                let sz = self.size();
                assert(sz < 0x1_0000_0000) by (nonlinear_arith)
                    requires sz == self.width() * self.height(), self.width() <= 0xffff, self.height() <= 0xffff, 0 <= self.width(), 0 <= self.height();
                assert((j + 1) * sz <= sz * sz) by (nonlinear_arith)
                    requires j + 1 <= sz, 0 <= sz;
                assert(sz * sz < 0x1_0000_0000_0000_0000) by (nonlinear_arith)
                    requires 0 <= sz < 0x1_0000_0000;
                assert(j * sz + sz == (j + 1) * sz) by (nonlinear_arith);
            }
            h = h + d;
            j += 1;
        }
        assert(cl.subrange(0, cl.len() as int) =~= cl);
        h
    }

    proof fn lemma_index_inj(&self, x1: int, y1: int, x2: int, y2: int)
        requires
            self.in_grid(x1, y1),
            self.in_grid(x2, y2),
            self.index(x1, y1) == self.index(x2, y2),
        ensures
            x1 == x2 && y1 == y2,
    {
        let w = self.width();
        assert(y1 == y2) by (nonlinear_arith)
            requires
                0 <= x1 < w,
                0 <= x2 < w,
                y1 * w + x1 == y2 * w + x2,
        ;
    }

    /// Performing `a + b` is performing `a`, then `b`.
    pub proof fn lemma_run_concat(&self, c: Config, a: Seq<Action>, b: Seq<Action>)
        ensures
            self.run(c, a + b) == match self.run(c, a) {
                Some(m) => self.run(m, b),
                None => None,
            },
        decreases a.len(),
    {
        if a.len() > 0 {
            assert((a + b).drop_first() =~= a.drop_first() + b);
            assert((a + b)[0] == a[0]);
            match self.step(c, a[0]) {
                Some(n) => self.lemma_run_concat(n, a.drop_first(), b),
                None => {},
            }
        } else {
            assert(a + b =~= b);
        }
    }

    /// From `c`, a step in direction `a` pushes a crate onto a free tile that
    /// is not dead.
    pub open spec fn push_ok(&self, c: Config, a: Action) -> bool {
        let nx = c.0.0 + delta(a).0;
        let ny = c.0.1 + delta(a).1;
        let bx = nx + delta(a).0;
        let by = ny + delta(a).1;
        &&& self.crate_in(c, nx, ny)
        &&& !self.wall_at(nx, ny)
        &&& self.free_in(c, bx, by)
        &&& !self.dead_at(bx, by)
    }

    /// The configuration after the push of `push_ok(c, a)`.
    pub open spec fn push_result(&self, c: Config, a: Action) -> Config {
        let nx = c.0.0 + delta(a).0;
        let ny = c.0.1 + delta(a).1;
        let bx = nx + delta(a).0;
        let by = ny + delta(a).1;
        ((nx, ny), c.1.remove(self.index(nx, ny)).insert(self.index(bx, by)))
    }

    /// `acts` is a walk over free tiles followed by one push onto a tile
    /// that is not dead, which leads from `c` to `child`, and `child` holds
    /// no frozen pair.
    pub open spec fn is_child(&self, c: Config, child: Config, acts: Seq<Action>) -> bool {
        let w = self.run(c, acts.drop_last());
        &&& acts.len() >= 1
        &&& self.walk_ok(c, acts.drop_last())
        &&& w is Some
        &&& w.unwrap().1 == c.1
        &&& self.push_ok(w.unwrap(), acts.last())
        &&& child == self.push_result(w.unwrap(), acts.last())
        &&& self.run(c, acts) == Some(child)
        &&& !self.has_frozen_pair(child)
    }

    fn set_crate(&self, state: &mut BoardState, x: u32, y: u32, crate_bit: bool)
        requires
            self.wf(),
            self.in_grid(x as int, y as int),
            old(state).crates.len() == self.size(),
        ensures
            final(state).player == old(state).player,
            final(state).crates.len() == self.size(),
            final(state).crates@ == old(state).crates@.update(self.index(x as int, y as int), crate_bit),
            final(state)@.1 == if crate_bit {
                old(state)@.1.insert(self.index(x as int, y as int))
            } else {
                old(state)@.1.remove(self.index(x as int, y as int))
            },
    {
        let t = self.tile(x, y);
        state.crates.set(t, crate_bit);
        proof {
            if crate_bit {
                assert(state@.1 =~= old(state)@.1.insert(t as int));
            } else {
                assert(state@.1 =~= old(state)@.1.remove(t as int));
            }
        }
    }

    /// The state after a push in direction `a` by the agent standing on
    /// `(x, y)`, if the push is allowed and leaves no frozen pair.
    fn try_push(&self, state: &BoardState, x: u32, y: u32, a: Action) -> (r: Option<BoardState>)
        requires
            self.wf(),
            self.state_wf(state),
            self.in_grid(x as int, y as int),
        ensures
            ({
                let w = ((x as int, y as int), state@.1);
                match r {
                    Some(child) => self.push_ok(w, a) && child@ == self.push_result(w, a)
                        && self.state_wf(&child) && !self.has_frozen_pair(child@),
                    None => !self.push_ok(w, a) || self.has_frozen_pair(self.push_result(w, a)),
                }
            }),
    {
        let ghost w = ((x as int, y as int), state@.1);
        let (dx, dy) = offset(a);
        let nx = x as i64 + dx;
        let ny = y as i64 + dy;
        let bx = nx + dx;
        let by = ny + dy;
        if self.is_crate(state, nx, ny) && self.is_empty(state, bx, by) && !self.is_dead_tile(bx, by) {
            proof {
                let ni = self.index(nx as int, ny as int);
                self.lemma_index_bound(nx as int, ny as int);
                assert(state.crates@[ni]);
                assert(!self.wall_at(nx as int, ny as int));
            }
            let mut child = BoardState { player: (nx as u32, ny as u32), crates: copy_bits(&state.crates) };
            assert(child@.1 == state@.1);
            self.set_crate(&mut child, nx as u32, ny as u32, false);
            self.set_crate(&mut child, bx as u32, by as u32, true);
            proof {
                self.lemma_index_bound(nx as int, ny as int);
                self.lemma_index_bound(bx as int, by as int);
                let ni = self.index(nx as int, ny as int);
                let bi = self.index(bx as int, by as int);
                assert forall|i: int| 0 <= i < self.size() && #[trigger] child.crates@[i] implies !self.walls@[i] by {
                    if i != bi {
                        assert(state.crates@[i]);
                    }
                }
            }
            if !self.is_unsolvable(&child) {
                Some(child)
            } else {
                None
            }
        } else {
            None
        }
    }

    /// Facts about one tile that the walk search has reached: it is free, and
    /// its recorded step leads back to a tile reached earlier, or it is the
    /// agent's tile.
    spec fn tile_ok(
        &self,
        c: Config,
        paths: Seq<Option<Action>>,
        seen: Seq<bool>,
        order: Seq<int>,
        x: int,
        y: int,
    ) -> bool {
        let i = self.index(x, y);
        &&& self.free_in(c, x, y)
        &&& order[i] >= 0
        &&& match paths[i] {
            None => x == c.0.0 && y == c.0.1,
            Some(a) => {
                let px = x - delta(a).0;
                let py = y - delta(a).1;
                &&& self.in_grid(px, py)
                &&& seen[self.index(px, py)]
                &&& order[self.index(px, py)] < order[i]
            },
        }
    }

    #[verifier::opaque]
    spec fn tree_ok(&self, c: Config, paths: Seq<Option<Action>>, seen: Seq<bool>, order: Seq<int>) -> bool {
        &&& paths.len() == self.size()
        &&& seen.len() == self.size()
        &&& order.len() == self.size()
        &&& forall|x: int, y: int|
            self.in_grid(x, y) && #[trigger] seen[self.index(x, y)] ==> self.tile_ok(c, paths, seen, order, x, y)
    }

    #[verifier::opaque]
    spec fn children_ok(&self, c: Config, ch: Seq<(BoardState, Vec<Action>)>) -> bool {
        forall|j: int| 0 <= j < ch.len() ==> self.state_wf(&#[trigger] ch[j].0) && self.is_child(c, ch[j].0@, ch[j].1@)
            && ch[j].1@.len() <= self.size()
    }

    spec fn entry_ok(&self, c: Config, seen: Seq<bool>, e: (u32, u32, Option<Action>)) -> bool {
        &&& self.in_grid(e.0 as int, e.1 as int)
        &&& match e.2 {
            None => e.0 as int == c.0.0 && e.1 as int == c.0.1,
            Some(a) => {
                let px = e.0 - delta(a).0;
                let py = e.1 - delta(a).1;
                self.in_grid(px, py) && seen[self.index(px, py)]
            },
        }
    }

    /// Every reached tile's walk length: zero on the agent's tile, one more
    /// than at the tile its recorded step comes from.
    #[verifier::opaque]
    spec fn depth_ok(&self, paths: Seq<Option<Action>>, seen: Seq<bool>, depth: Seq<int>) -> bool {
        &&& depth.len() == self.size()
        &&& forall|x: int, y: int| self.in_grid(x, y) && #[trigger] seen[self.index(x, y)] ==> match paths[self.index(x, y)] {
            None => depth[self.index(x, y)] == 0,
            Some(a) => depth[self.index(x, y)] == depth[self.index(x - delta(a).0, y - delta(a).1)] + 1,
        }
    }

    proof fn lemma_depth_step(&self, paths: Seq<Option<Action>>, seen: Seq<bool>, depth: Seq<int>, x: int, y: int)
        requires
            self.depth_ok(paths, seen, depth),
            self.in_grid(x, y),
            seen[self.index(x, y)],
        ensures
            match paths[self.index(x, y)] {
                None => depth[self.index(x, y)] == 0,
                Some(a) => depth[self.index(x, y)] == depth[self.index(x - delta(a).0, y - delta(a).1)] + 1,
            },
    {
        reveal(Board::depth_ok);
    }

    proof fn lemma_mark_depth(
        &self,
        c: Config,
        paths: Seq<Option<Action>>,
        seen: Seq<bool>,
        depth: Seq<int>,
        order: Seq<int>,
        x: int,
        y: int,
        from: Option<Action>,
        k: int,
    )
        requires
            self.wf(),
            self.tree_ok(c, paths, seen, order),
            self.depth_ok(paths, seen, depth),
            self.in_grid(x, y),
            !seen[self.index(x, y)],
            match from {
                None => k == 0,
                Some(a) => {
                    let px = x - delta(a).0;
                    let py = y - delta(a).1;
                    self.in_grid(px, py) && seen[self.index(px, py)] && k == depth[self.index(px, py)] + 1
                },
            },
        ensures
            ({
                let t = self.index(x, y);
                self.depth_ok(paths.update(t, from), seen.update(t, true), depth.update(t, k))
            }),
    {
        reveal(Board::depth_ok);
        reveal(Board::tree_ok);
        let t = self.index(x, y);
        self.lemma_index_bound(x, y);
        let paths2 = paths.update(t, from);
        let seen2 = seen.update(t, true);
        let depth2 = depth.update(t, k);
        assert forall|x2: int, y2: int| self.in_grid(x2, y2) && #[trigger] seen2[self.index(x2, y2)] implies match paths2[self.index(x2, y2)] {
            None => depth2[self.index(x2, y2)] == 0,
            Some(a) => depth2[self.index(x2, y2)] == depth2[self.index(x2 - delta(a).0, y2 - delta(a).1)] + 1,
        } by {
            self.lemma_index_bound(x2, y2);
            if self.index(x2, y2) == t {
                self.lemma_index_inj(x2, y2, x, y);
                match from {
                    Some(a) => {
                        let px = x - delta(a).0;
                        let py = y - delta(a).1;
                        self.lemma_index_bound(px, py);
                    },
                    None => {},
                }
            } else {
                assert(seen[self.index(x2, y2)]);
                assert(self.tile_ok(c, paths, seen, order, x2, y2));
                match paths[self.index(x2, y2)] {
                    Some(a) => {
                        let px = x2 - delta(a).0;
                        let py = y2 - delta(a).1;
                        assert(depth[self.index(x2, y2)] == depth[self.index(px, py)] + 1);
                        self.lemma_index_bound(px, py);
                        assert(self.index(px, py) != t);
                    },
                    None => {},
                }
            }
        }
    }

    /// The walk length a queue entry would record: zero for the agent's
    /// tile, else one more than at the tile it steps from.
    spec fn entry_depth(&self, depth: Seq<int>, e: (u32, u32, Option<Action>)) -> int {
        match e.2 {
            None => 0,
            Some(a) => depth[self.index(e.0 - delta(a).0, e.1 - delta(a).1)] + 1,
        }
    }

    /// Some queue entry at or after `head` is tile `(x, y)` at walk length
    /// at most `bound`.
    spec fn dqueued(&self, depth: Seq<int>, queue: Seq<(u32, u32, Option<Action>)>, head: int, x: int, y: int, bound: int) -> bool {
        exists|q: int|
            head <= q < queue.len() && (#[trigger] queue[q]).0 as int == x && queue[q].1 as int == y && self.entry_depth(
                depth,
                queue[q],
            ) <= bound
    }

    spec fn layer_step_ok(
        &self,
        c: Config,
        seen: Seq<bool>,
        depth: Seq<int>,
        queue: Seq<(u32, u32, Option<Action>)>,
        head: int,
        x: int,
        y: int,
        a: Action,
    ) -> bool {
        let nx = x + delta(a).0;
        let ny = y + delta(a).1;
        self.in_grid(x, y) && seen[self.index(x, y)] && self.free_in(c, nx, ny) ==> (seen[self.index(nx, ny)] && depth[self.index(
            nx,
            ny,
        )] <= depth[self.index(x, y)] + 1) || self.dqueued(depth, queue, head, nx, ny, depth[self.index(x, y)] + 1)
    }

    /// The walk search runs in layers: queued walk lengths are sorted and
    /// span at most `lo ..= lo + 1`, reached tiles have walk length at most
    /// `lo`, and the free neighbours of reached tiles are reached or queued
    /// at most one step further.
    #[verifier::opaque]
    spec fn layer_ok(
        &self,
        c: Config,
        seen: Seq<bool>,
        depth: Seq<int>,
        queue: Seq<(u32, u32, Option<Action>)>,
        head: int,
        lo: int,
    ) -> bool {
        &&& forall|x: int, y: int, a: Action| #[trigger] self.layer_step_ok(c, seen, depth, queue, head, x, y, a)
        &&& forall|p: int, q: int| head <= p <= q < queue.len() ==> self.entry_depth(depth, #[trigger] queue[p]) <= self.entry_depth(
            depth,
            #[trigger] queue[q],
        )
        &&& forall|q: int| head <= q < queue.len() ==> lo <= self.entry_depth(depth, #[trigger] queue[q]) <= lo + 1
        &&& forall|x: int, y: int| self.in_grid(x, y) && #[trigger] seen[self.index(x, y)] ==> depth[self.index(x, y)] <= lo
    }

    proof fn lemma_layer_skip(
        &self,
        c: Config,
        seen: Seq<bool>,
        depth: Seq<int>,
        queue: Seq<(u32, u32, Option<Action>)>,
        head: int,
        lo: int,
    )
        requires
            self.wf(),
            seen.len() == self.size(),
            self.layer_ok(c, seen, depth, queue, head, lo),
            0 <= head < queue.len(),
            self.in_grid(queue[head].0 as int, queue[head].1 as int),
            seen[self.index(queue[head].0 as int, queue[head].1 as int)] || !self.free_in(c, queue[head].0 as int, queue[head].1 as int),
        ensures
            self.layer_ok(c, seen, depth, queue, head + 1, self.entry_depth(depth, queue[head])),
    {
        reveal(Board::layer_ok);
        let lo2 = self.entry_depth(depth, queue[head]);
        assert forall|x: int, y: int, a: Action| #[trigger] self.layer_step_ok(c, seen, depth, queue, head + 1, x, y, a) by {
            assert(self.layer_step_ok(c, seen, depth, queue, head, x, y, a));
            let nx = x + delta(a).0;
            let ny = y + delta(a).1;
            if self.in_grid(x, y) && seen[self.index(x, y)] && self.free_in(c, nx, ny) && !(seen[self.index(nx, ny)] && depth[self.index(
                nx,
                ny,
            )] <= depth[self.index(x, y)] + 1) {
                let b = depth[self.index(x, y)] + 1;
                let q = choose|q: int|
                    head <= q < queue.len() && (#[trigger] queue[q]).0 as int == nx && queue[q].1 as int == ny && self.entry_depth(
                        depth,
                        queue[q],
                    ) <= b;
                if q == head {
                    assert(seen[self.index(nx, ny)]);
                    assert(depth[self.index(nx, ny)] <= lo);
                    assert(false);
                } else {
                    assert(head + 1 <= q);
                }
            }
        }
        assert forall|q: int| head + 1 <= q < queue.len() implies lo2 <= self.entry_depth(depth, #[trigger] queue[q]) <= lo2 + 1 by {
            assert(self.entry_depth(depth, queue[head]) <= self.entry_depth(depth, queue[q]));
            assert(lo <= self.entry_depth(depth, queue[q]) <= lo + 1);
            assert(lo <= lo2);
        }
        assert forall|x: int, y: int| self.in_grid(x, y) && #[trigger] seen[self.index(x, y)] implies depth[self.index(x, y)] <= lo2 by {
            assert(lo <= lo2);
        }
    }

    proof fn lemma_layer_visit(
        &self,
        c: Config,
        seen: Seq<bool>,
        depth: Seq<int>,
        queue: Seq<(u32, u32, Option<Action>)>,
        head: int,
        lo: int,
        queue2: Seq<(u32, u32, Option<Action>)>,
    )
        requires
            self.wf(),
            seen.len() == self.size(),
            depth.len() == self.size(),
            self.layer_ok(c, seen, depth, queue, head, lo),
            0 <= head < queue.len(),
            self.in_grid(queue[head].0 as int, queue[head].1 as int),
            !seen[self.index(queue[head].0 as int, queue[head].1 as int)],
            forall|q: int| head <= q < queue.len() ==> self.entry_ok(c, seen, #[trigger] queue[q]),
            queue.len() <= queue2.len(),
            forall|q: int| 0 <= q < queue.len() ==> #[trigger] queue2[q] == queue[q],
            forall|q: int| queue.len() <= q < queue2.len() ==> (#[trigger] queue2[q]).2 is Some && queue2[q].0 as int
                == queue[head].0 + delta(queue2[q].2.unwrap()).0 && queue2[q].1 as int == queue[head].1 + delta(
                queue2[q].2.unwrap(),
            ).1,
            forall|a: Action| self.in_grid(
                #[trigger] (queue[head].0 + delta(a).0),
                queue[head].1 + delta(a).1,
            ) ==> self.pending(queue2, queue.len() as int, queue[head].0 + delta(a).0, queue[head].1 + delta(a).1),
        ensures
            ({
                let t = self.index(queue[head].0 as int, queue[head].1 as int);
                let k = self.entry_depth(depth, queue[head]);
                self.layer_ok(c, seen.update(t, true), depth.update(t, k), queue2, head + 1, k)
            }),
    {
        reveal(Board::layer_ok);
        let ex = queue[head].0 as int;
        let ey = queue[head].1 as int;
        let t = self.index(ex, ey);
        let k = self.entry_depth(depth, queue[head]);
        self.lemma_index_bound(ex, ey);
        let seen2 = seen.update(t, true);
        let depth2 = depth.update(t, k);
        assert(lo <= k);
        // queued walk lengths keep their values, and new entries sit one past k
        assert forall|q: int| head + 1 <= q < queue2.len() implies #[trigger] self.entry_depth(depth2, queue2[q]) == if q < queue.len() {
            self.entry_depth(depth, queue[q])
        } else {
            k + 1
        } by {
            if q < queue.len() {
                assert(queue2[q] == queue[q]);
                assert(self.entry_ok(c, seen, queue[q]));
                match queue[q].2 {
                    Some(a) => {
                        let px = queue[q].0 - delta(a).0;
                        let py = queue[q].1 - delta(a).1;
                        self.lemma_index_bound(px, py);
                        assert(self.index(px, py) != t);
                    },
                    None => {},
                }
            } else {
                let a = queue2[q].2.unwrap();
                assert(queue2[q].0 - delta(a).0 == ex && queue2[q].1 - delta(a).1 == ey);
            }
        }
        assert forall|x: int, y: int, a: Action| #[trigger] self.layer_step_ok(c, seen2, depth2, queue2, head + 1, x, y, a) by {
            let nx = x + delta(a).0;
            let ny = y + delta(a).1;
            if self.in_grid(x, y) && seen2[self.index(x, y)] && self.free_in(c, nx, ny) {
                self.lemma_index_bound(x, y);
                self.lemma_index_bound(nx, ny);
                if self.index(x, y) == t {
                    self.lemma_index_inj(x, y, ex, ey);
                    assert(self.in_grid(ex + delta(a).0, ey + delta(a).1));
                    assert(self.pending(queue2, queue.len() as int, nx, ny));
                    let q = choose|q: int| queue.len() <= q < queue2.len() && (#[trigger] queue2[q]).0 as int == nx && queue2[q].1 as int
                        == ny;
                    assert(self.entry_depth(depth2, queue2[q]) == k + 1);
                    assert(depth2[t] == k);
                } else {
                    assert(seen[self.index(x, y)]);
                    assert(depth2[self.index(x, y)] == depth[self.index(x, y)]);
                    assert(self.layer_step_ok(c, seen, depth, queue, head, x, y, a));
                    let b = depth[self.index(x, y)] + 1;
                    if seen[self.index(nx, ny)] && depth[self.index(nx, ny)] <= b {
                        assert(self.index(nx, ny) != t);
                    } else {
                        let q = choose|q: int|
                            head <= q < queue.len() && (#[trigger] queue[q]).0 as int == nx && queue[q].1 as int == ny && self.entry_depth(
                                depth,
                                queue[q],
                            ) <= b;
                        if q == head {
                            self.lemma_index_inj(nx, ny, ex, ey);
                            assert(seen2[self.index(nx, ny)] && depth2[self.index(nx, ny)] == k);
                        } else {
                            assert(queue2[q] == queue[q]);
                            assert(self.entry_depth(depth2, queue2[q]) == self.entry_depth(depth, queue[q]));
                        }
                    }
                }
            }
        }
        assert forall|p: int, q: int| head + 1 <= p <= q < queue2.len() implies self.entry_depth(depth2, #[trigger] queue2[p])
            <= self.entry_depth(depth2, #[trigger] queue2[q]) by {
            assert(self.entry_depth(depth2, queue2[p]) == if p < queue.len() {
                self.entry_depth(depth, queue[p])
            } else {
                k + 1
            });
            assert(self.entry_depth(depth2, queue2[q]) == if q < queue.len() {
                self.entry_depth(depth, queue[q])
            } else {
                k + 1
            });
            if q < queue.len() {
                assert(self.entry_depth(depth, queue[p]) <= self.entry_depth(depth, queue[q]));
            } else if p < queue.len() {
                assert(self.entry_depth(depth, queue[p]) <= lo + 1);
            }
        }
        assert forall|q: int| head + 1 <= q < queue2.len() implies k <= self.entry_depth(depth2, #[trigger] queue2[q]) <= k + 1 by {
            assert(self.entry_depth(depth2, queue2[q]) == if q < queue.len() {
                self.entry_depth(depth, queue[q])
            } else {
                k + 1
            });
            if q < queue.len() {
                assert(self.entry_depth(depth, queue[head]) <= self.entry_depth(depth, queue[q]));
                assert(self.entry_depth(depth, queue[q]) <= lo + 1);
            }
        }
        assert forall|x: int, y: int| self.in_grid(x, y) && #[trigger] seen2[self.index(x, y)] implies depth2[self.index(x, y)] <= k by {
            self.lemma_index_bound(x, y);
            if self.index(x, y) != t {
                assert(seen[self.index(x, y)]);
            }
        }
    }

    /// When the queue is used up, a walk from a reached tile ends on a
    /// reached tile whose walk length is at most one more per step.
    proof fn lemma_layer_walk(
        &self,
        c: Config,
        seen: Seq<bool>,
        depth: Seq<int>,
        queue: Seq<(u32, u32, Option<Action>)>,
        lo: int,
        p: (int, int),
        acts: Seq<Action>,
    )
        requires
            self.wf(),
            seen.len() == self.size(),
            self.layer_ok(c, seen, depth, queue, queue.len() as int, lo),
            self.in_grid(p.0, p.1),
            seen[self.index(p.0, p.1)],
            self.walk_ok((p, c.1), acts),
        ensures
            self.run((p, c.1), acts) is Some,
            self.in_grid(self.run((p, c.1), acts).unwrap().0.0, self.run((p, c.1), acts).unwrap().0.1),
            seen[self.index(self.run((p, c.1), acts).unwrap().0.0, self.run((p, c.1), acts).unwrap().0.1)],
            depth[self.index(self.run((p, c.1), acts).unwrap().0.0, self.run((p, c.1), acts).unwrap().0.1)] <= depth[self.index(
                p.0,
                p.1,
            )] + acts.len(),
        decreases acts.len(),
    {
        if acts.len() > 0 {
            reveal(Board::layer_ok);
            let a = acts[0];
            let nx = p.0 + delta(a).0;
            let ny = p.1 + delta(a).1;
            assert(self.layer_step_ok(c, seen, depth, queue, queue.len() as int, p.0, p.1, a));
            assert(self.step((p, c.1), a) == Some(((nx, ny), c.1)));
            self.lemma_layer_walk(c, seen, depth, queue, lo, (nx, ny), acts.drop_first());
        }
    }

    proof fn lemma_mark(
        &self,
        c: Config,
        paths: Seq<Option<Action>>,
        seen: Seq<bool>,
        order: Seq<int>,
        x: int,
        y: int,
        from: Option<Action>,
        k: int,
    )
        requires
            self.wf(),
            self.tree_ok(c, paths, seen, order),
            self.in_grid(x, y),
            !seen[self.index(x, y)],
            self.free_in(c, x, y),
            0 <= k,
            forall|i: int| 0 <= i < self.size() && seen[i] ==> #[trigger] order[i] < k,
            match from {
                None => x == c.0.0 && y == c.0.1,
                Some(a) => {
                    let px = x - delta(a).0;
                    let py = y - delta(a).1;
                    self.in_grid(px, py) && seen[self.index(px, py)]
                },
            },
        ensures
            ({
                let t = self.index(x, y);
                self.tree_ok(c, paths.update(t, from), seen.update(t, true), order.update(t, k))
            }),
    {
        reveal(Board::tree_ok);
        let t = self.index(x, y);
        self.lemma_index_bound(x, y);
        let paths2 = paths.update(t, from);
        let seen2 = seen.update(t, true);
        let order2 = order.update(t, k);
        assert forall|x2: int, y2: int| self.in_grid(x2, y2) && #[trigger] seen2[self.index(x2, y2)] implies self.tile_ok(
            c,
            paths2,
            seen2,
            order2,
            x2,
            y2,
        ) by {
            self.lemma_index_bound(x2, y2);
            if self.index(x2, y2) == t {
                self.lemma_index_inj(x2, y2, x, y);
                match from {
                    Some(a) => {
                        let px = x - delta(a).0;
                        let py = y - delta(a).1;
                        self.lemma_index_bound(px, py);
                    },
                    None => {},
                }
            } else {
                assert(seen[self.index(x2, y2)]);
                assert(self.tile_ok(c, paths, seen, order, x2, y2));
                match paths[self.index(x2, y2)] {
                    Some(a) => {
                        let px = x2 - delta(a).0;
                        let py = y2 - delta(a).1;
                        self.lemma_index_bound(px, py);
                        assert(self.index(px, py) != t);
                    },
                    None => {},
                }
            }
        }
    }

    /// Two allowed pushes with the same outcome start from the same tile in
    /// the same direction.
    proof fn lemma_push_result_inj(&self, cs: Set<int>, x: int, y: int, a: Action, x2: int, y2: int, a2: Action)
        requires
            self.wf(),
            self.push_ok(((x, y), cs), a),
            self.push_ok(((x2, y2), cs), a2),
            self.push_result(((x, y), cs), a) == self.push_result(((x2, y2), cs), a2),
        ensures
            x == x2 && y == y2 && a == a2,
    {
        let px = x + delta(a).0;
        let py = y + delta(a).1;
        let bx = px + delta(a).0;
        let by = py + delta(a).1;
        let bx2 = px + delta(a2).0;
        let by2 = py + delta(a2).1;
        let pi = self.index(px, py);
        let bi = self.index(bx, by);
        let bi2 = self.index(bx2, by2);
        assert(!cs.contains(bi));
        assert(!cs.contains(bi2));
        let s1 = cs.remove(pi).insert(bi);
        let s2 = cs.remove(pi).insert(bi2);
        assert(s1.contains(bi));
        assert(s2.contains(bi));
        assert(bi == bi2);
        self.lemma_index_inj(bx, by, bx2, by2);
        assert(delta(a) == delta(a2));
    }

    /// Every child's walk ends on a reached tile, and the child's actions are
    /// one more than that tile's recorded walk length.
    #[verifier::opaque]
    spec fn walks_ok(&self, c: Config, seen: Seq<bool>, depth: Seq<int>, ch: Seq<(BoardState, Vec<Action>)>) -> bool {
        forall|j: int| 0 <= j < ch.len() ==> {
            let e = self.run(c, (#[trigger] ch[j]).1@.drop_last());
            &&& e is Some
            &&& self.in_grid(e.unwrap().0.0, e.unwrap().0.1)
            &&& seen[self.index(e.unwrap().0.0, e.unwrap().0.1)]
            &&& ch[j].1@.len() == depth[self.index(e.unwrap().0.0, e.unwrap().0.1)] + 1
        }
    }

    /// One call of `add_child` from `(x, y)` added at most one child, whose
    /// walk ends there and has `len` actions in all.
    spec fn walk_added(&self, c: Config, x: int, y: int, len: int, ch: Seq<(BoardState, Vec<Action>)>, ch2: Seq<(BoardState, Vec<Action>)>) -> bool {
        &&& ch.len() <= ch2.len() <= ch.len() + 1
        &&& forall|j: int| 0 <= j < ch.len() ==> #[trigger] ch2[j] == ch[j]
        &&& ch2.len() > ch.len() ==> self.run(c, ch2[ch.len() as int].1@.drop_last()) == Some(((x, y), c.1))
            && ch2[ch.len() as int].1@.len() == len
    }

    proof fn lemma_walks_visit(
        &self,
        c: Config,
        seen: Seq<bool>,
        depth: Seq<int>,
        x: int,
        y: int,
        k: int,
        ch0: Seq<(BoardState, Vec<Action>)>,
        ch1: Seq<(BoardState, Vec<Action>)>,
        ch2: Seq<(BoardState, Vec<Action>)>,
        ch3: Seq<(BoardState, Vec<Action>)>,
        ch4: Seq<(BoardState, Vec<Action>)>,
    )
        requires
            self.wf(),
            seen.len() == self.size(),
            depth.len() == self.size(),
            self.walks_ok(c, seen, depth, ch0),
            self.in_grid(x, y),
            !seen[self.index(x, y)],
            self.walk_added(c, x, y, k + 1, ch0, ch1),
            self.walk_added(c, x, y, k + 1, ch1, ch2),
            self.walk_added(c, x, y, k + 1, ch2, ch3),
            self.walk_added(c, x, y, k + 1, ch3, ch4),
        ensures
            ({
                let t = self.index(x, y);
                self.walks_ok(c, seen.update(t, true), depth.update(t, k), ch4)
            }),
    {
        reveal(Board::walks_ok);
        let t = self.index(x, y);
        self.lemma_index_bound(x, y);
        let seen2 = seen.update(t, true);
        let depth2 = depth.update(t, k);
        assert forall|j: int| 0 <= j < ch4.len() implies {
            let e = self.run(c, (#[trigger] ch4[j]).1@.drop_last());
            &&& e is Some
            &&& self.in_grid(e.unwrap().0.0, e.unwrap().0.1)
            &&& seen2[self.index(e.unwrap().0.0, e.unwrap().0.1)]
            &&& ch4[j].1@.len() == depth2[self.index(e.unwrap().0.0, e.unwrap().0.1)] + 1
        } by {
            if j < ch0.len() {
                assert(ch4[j] == ch3[j] && ch3[j] == ch2[j] && ch2[j] == ch1[j] && ch1[j] == ch0[j]);
                let e = self.run(c, ch0[j].1@.drop_last()).unwrap();
                self.lemma_index_bound(e.0.0, e.0.1);
                assert(self.index(e.0.0, e.0.1) != t);
                assert(ch0[j].1@.len() == depth[self.index(e.0.0, e.0.1)] + 1);
                assert(depth2[self.index(e.0.0, e.0.1)] == depth[self.index(e.0.0, e.0.1)]);
            } else {
                if j < ch1.len() {
                    assert(ch4[j] == ch3[j] && ch3[j] == ch2[j] && ch2[j] == ch1[j]);
                    assert(j == ch0.len());
                } else if j < ch2.len() {
                    assert(ch4[j] == ch3[j] && ch3[j] == ch2[j]);
                    assert(j == ch1.len());
                } else if j < ch3.len() {
                    assert(ch4[j] == ch3[j]);
                    assert(j == ch2.len());
                } else {
                    assert(j == ch3.len());
                }
                assert(self.run(c, ch4[j].1@.drop_last()) == Some(((x, y), c.1)));
                assert(ch4[j].1@.len() == k + 1);
                assert(depth2[t] == k);
            }
        }
    }

    /// One call of `add_child` in direction `a` took `ch` to `ch2`.
    spec fn added(&self, w: Config, a: Action, ch: Seq<(BoardState, Vec<Action>)>, ch2: Seq<(BoardState, Vec<Action>)>) -> bool {
        &&& ch.len() <= ch2.len() <= ch.len() + 1
        &&& forall|j: int| 0 <= j < ch.len() ==> #[trigger] ch2[j] == ch[j]
        &&& ch2.len() > ch.len() ==> self.push_ok(w, a) && ch2[ch.len() as int].0@ == self.push_result(w, a)
    }

    /// The children added for the four directions from one tile come from
    /// allowed pushes from it, and differ from one another.
    proof fn lemma_new_children(
        &self,
        w: Config,
        ch0: Seq<(BoardState, Vec<Action>)>,
        ch1: Seq<(BoardState, Vec<Action>)>,
        ch2: Seq<(BoardState, Vec<Action>)>,
        ch3: Seq<(BoardState, Vec<Action>)>,
        ch4: Seq<(BoardState, Vec<Action>)>,
    )
        requires
            self.wf(),
            self.added(w, Action::Up, ch0, ch1),
            self.added(w, Action::Down, ch1, ch2),
            self.added(w, Action::Left, ch2, ch3),
            self.added(w, Action::Right, ch3, ch4),
        ensures
            ch0.len() <= ch4.len(),
            forall|j: int| 0 <= j < ch0.len() ==> #[trigger] ch4[j] == ch0[j],
            forall|j: int| ch0.len() <= j < ch4.len() ==> exists|a: Action|
                self.push_ok(w, a) && (#[trigger] ch4[j]).0@ == self.push_result(w, a),
            forall|i: int, j: int| ch0.len() <= i < j < ch4.len() ==> (#[trigger] ch4[i]).0@ != (#[trigger] ch4[j]).0@,
    {
        let l1 = ch1.len() as int;
        let l2 = ch2.len() as int;
        let l3 = ch3.len() as int;
        assert forall|j: int| 0 <= j < ch0.len() implies #[trigger] ch4[j] == ch0[j] by {
            assert(ch4[j] == ch3[j] && ch3[j] == ch2[j] && ch2[j] == ch1[j] && ch1[j] == ch0[j]);
        }
        assert forall|j: int| ch0.len() <= j < ch4.len() implies self.push_ok(w, dir_at(j, l1, l2, l3)) && ch4[j].0@
            == self.push_result(w, dir_at(j, l1, l2, l3)) by {
            if j < l1 {
                assert(j == ch0.len());
                assert(ch4[j] == ch3[j] && ch3[j] == ch2[j] && ch2[j] == ch1[j]);
            } else if j < l2 {
                assert(j == ch1.len());
                assert(ch4[j] == ch3[j] && ch3[j] == ch2[j]);
            } else if j < l3 {
                assert(j == ch2.len());
                assert(ch4[j] == ch3[j]);
            } else {
                assert(j == ch3.len());
            }
        }
        assert forall|j: int| ch0.len() <= j < ch4.len() implies exists|a: Action|
            self.push_ok(w, a) && (#[trigger] ch4[j]).0@ == self.push_result(w, a) by {
            let d = dir_at(j, l1, l2, l3);
            assert(self.push_ok(w, d) && ch4[j].0@ == self.push_result(w, d));
        }
        assert forall|i: int, j: int| ch0.len() <= i < j < ch4.len() implies (#[trigger] ch4[i]).0@ != (#[trigger] ch4[j]).0@ by {
            let di = dir_at(i, l1, l2, l3);
            let dj = dir_at(j, l1, l2, l3);
            assert(self.push_ok(w, di) && ch4[i].0@ == self.push_result(w, di));
            assert(self.push_ok(w, dj) && ch4[j].0@ == self.push_result(w, dj));
            assert(di != dj);
            if ch4[i].0@ == ch4[j].0@ {
                self.lemma_push_result_inj(w.1, w.0.0, w.0.1, di, w.0.0, w.0.1, dj);
            }
        }
    }

    /// Configuration `cfg` is the outcome of an allowed push from a tile
    /// reached in `seen`.
    spec fn has_origin(&self, c: Config, seen: Seq<bool>, cfg: Config) -> bool {
        exists|x: int, y: int, a: Action|
            self.in_grid(x, y) && seen[self.index(x, y)] && self.push_ok(((x, y), c.1), a) && cfg == #[trigger] self.push_result(
                ((x, y), c.1),
                a,
            )
    }

    #[verifier::opaque]
    spec fn origins_ok(&self, c: Config, seen: Seq<bool>, ch: Seq<(BoardState, Vec<Action>)>) -> bool {
        &&& forall|j: int| 0 <= j < ch.len() ==> self.has_origin(c, seen, #[trigger] ch[j].0@)
        &&& forall|i: int, j: int| 0 <= i < j < ch.len() ==> (#[trigger] ch[i]).0@ != (#[trigger] ch[j]).0@
    }

    /// Reaching tile `(x, y)` and adding its children, each the outcome of
    /// an allowed push from it, keeps the children distinct and traced.
    proof fn lemma_origins_visit(
        &self,
        c: Config,
        seen: Seq<bool>,
        ch: Seq<(BoardState, Vec<Action>)>,
        ch2: Seq<(BoardState, Vec<Action>)>,
        x: int,
        y: int,
    )
        requires
            self.wf(),
            seen.len() == self.size(),
            self.origins_ok(c, seen, ch),
            self.in_grid(x, y),
            !seen[self.index(x, y)],
            ch.len() <= ch2.len(),
            forall|j: int| 0 <= j < ch.len() ==> #[trigger] ch2[j] == ch[j],
            forall|j: int| ch.len() <= j < ch2.len() ==> exists|a: Action|
                self.push_ok(((x, y), c.1), a) && (#[trigger] ch2[j]).0@ == self.push_result(((x, y), c.1), a),
            forall|i: int, j: int| ch.len() <= i < j < ch2.len() ==> (#[trigger] ch2[i]).0@ != (#[trigger] ch2[j]).0@,
        ensures
            self.origins_ok(c, seen.update(self.index(x, y), true), ch2),
    {
        reveal(Board::origins_ok);
        let t = self.index(x, y);
        self.lemma_index_bound(x, y);
        let seen2 = seen.update(t, true);
        assert forall|j: int| 0 <= j < ch2.len() implies self.has_origin(c, seen2, #[trigger] ch2[j].0@) by {
            if j < ch.len() {
                assert(ch2[j] == ch[j]);
                assert(self.has_origin(c, seen, ch[j].0@));
                let (x1, y1, a1) = choose|x1: int, y1: int, a1: Action|
                    self.in_grid(x1, y1) && seen[self.index(x1, y1)] && self.push_ok(((x1, y1), c.1), a1) && ch[j].0@
                        == #[trigger] self.push_result(((x1, y1), c.1), a1);
                self.lemma_index_bound(x1, y1);
                assert(seen2[self.index(x1, y1)]);
            } else {
                let a = choose|a: Action| self.push_ok(((x, y), c.1), a) && (#[trigger] ch2[j]).0@ == self.push_result(((x, y), c.1), a);
                assert(seen2[self.index(x, y)]);
                assert(self.push_result(((x, y), c.1), a) == ch2[j].0@);
            }
        }
        assert forall|i: int, j: int| 0 <= i < j < ch2.len() implies (#[trigger] ch2[i]).0@ != (#[trigger] ch2[j]).0@ by {
            if j < ch.len() {
                assert(ch2[i] == ch[i] && ch2[j] == ch[j]);
            } else if i < ch.len() {
                assert(ch2[i] == ch[i]);
                assert(self.has_origin(c, seen, ch[i].0@));
                let (x1, y1, a1) = choose|x1: int, y1: int, a1: Action|
                    self.in_grid(x1, y1) && seen[self.index(x1, y1)] && self.push_ok(((x1, y1), c.1), a1) && ch[i].0@
                        == #[trigger] self.push_result(((x1, y1), c.1), a1);
                let a = choose|a: Action| self.push_ok(((x, y), c.1), a) && (#[trigger] ch2[j]).0@ == self.push_result(((x, y), c.1), a);
                if ch2[i].0@ == ch2[j].0@ {
                    self.lemma_push_result_inj(c.1, x1, y1, a1, x, y, a);
                }
            }
        }
    }

    /// `acts` only walks: every step enters a free tile, so no crate moves.
    pub open spec fn walk_ok(&self, c: Config, acts: Seq<Action>) -> bool
        decreases acts.len(),
    {
        acts.len() == 0 || {
            let nx = c.0.0 + delta(acts[0]).0;
            let ny = c.0.1 + delta(acts[0]).1;
            self.free_in(c, nx, ny) && self.walk_ok(((nx, ny), c.1), acts.drop_first())
        }
    }

    /// Some queue entry at or after `head` is tile `(x, y)`.
    spec fn pending(&self, queue: Seq<(u32, u32, Option<Action>)>, head: int, x: int, y: int) -> bool {
        exists|q: int| head <= q < queue.len() && (#[trigger] queue[q]).0 as int == x && queue[q].1 as int == y
    }

    /// The free neighbour of a reached tile in direction `a` is reached or
    /// waits in the queue.
    spec fn neighbour_ok(
        &self,
        c: Config,
        seen: Seq<bool>,
        queue: Seq<(u32, u32, Option<Action>)>,
        head: int,
        x: int,
        y: int,
        a: Action,
    ) -> bool {
        let nx = x + delta(a).0;
        let ny = y + delta(a).1;
        self.in_grid(x, y) && seen[self.index(x, y)] && self.free_in(c, nx, ny) ==> seen[self.index(nx, ny)]
            || self.pending(queue, head, nx, ny)
    }

    #[verifier::opaque]
    spec fn closed_ok(&self, c: Config, seen: Seq<bool>, queue: Seq<(u32, u32, Option<Action>)>, head: int) -> bool {
        forall|x: int, y: int, a: Action| #[trigger] self.neighbour_ok(c, seen, queue, head, x, y, a)
    }

    /// Every allowed push from a reached tile has produced a child.
    spec fn push_found(
        &self,
        c: Config,
        seen: Seq<bool>,
        children: Seq<(BoardState, Vec<Action>)>,
        x: int,
        y: int,
        a: Action,
    ) -> bool {
        let w = ((x, y), c.1);
        self.in_grid(x, y) && seen[self.index(x, y)] && self.push_ok(w, a) && !self.has_frozen_pair(self.push_result(w, a))
            ==> exists|j: int| 0 <= j < children.len() && (#[trigger] children[j]).0@ == self.push_result(w, a)
    }

    #[verifier::opaque]
    spec fn pushes_ok(&self, c: Config, seen: Seq<bool>, children: Seq<(BoardState, Vec<Action>)>) -> bool {
        forall|x: int, y: int, a: Action| #[trigger] self.push_found(c, seen, children, x, y, a)
    }

    /// Dropping the first queue entry keeps the walk search closed when that
    /// entry's tile was reached already or is not free.
    proof fn lemma_closed_skip(&self, c: Config, seen: Seq<bool>, queue: Seq<(u32, u32, Option<Action>)>, head: int)
        requires
            self.wf(),
            seen.len() == self.size(),
            self.closed_ok(c, seen, queue, head),
            0 <= head < queue.len(),
            self.in_grid(queue[head].0 as int, queue[head].1 as int),
            seen[self.index(queue[head].0 as int, queue[head].1 as int)] || !self.free_in(
                c,
                queue[head].0 as int,
                queue[head].1 as int,
            ),
        ensures
            self.closed_ok(c, seen, queue, head + 1),
    {
        reveal(Board::closed_ok);
        assert forall|x: int, y: int, a: Action| #[trigger] self.neighbour_ok(c, seen, queue, head + 1, x, y, a) by {
            assert(self.neighbour_ok(c, seen, queue, head, x, y, a));
            let nx = x + delta(a).0;
            let ny = y + delta(a).1;
            if self.in_grid(x, y) && seen[self.index(x, y)] && self.free_in(c, nx, ny) && !seen[self.index(nx, ny)] {
                let q = choose|q: int| head <= q < queue.len() && (#[trigger] queue[q]).0 as int == nx && queue[q].1 as int == ny;
                if q == head {
                    assert(false);
                } else {
                    assert(head + 1 <= q < queue.len() && queue[q].0 as int == nx && queue[q].1 as int == ny);
                }
            }
        }
    }

    /// Reaching the first queue entry's tile and queueing its in-grid
    /// neighbours keeps the walk search closed.
    proof fn lemma_closed_visit(
        &self,
        c: Config,
        seen: Seq<bool>,
        queue: Seq<(u32, u32, Option<Action>)>,
        head: int,
        queue2: Seq<(u32, u32, Option<Action>)>,
    )
        requires
            self.wf(),
            seen.len() == self.size(),
            self.closed_ok(c, seen, queue, head),
            0 <= head < queue.len(),
            self.in_grid(queue[head].0 as int, queue[head].1 as int),
            queue.len() <= queue2.len(),
            forall|q: int| 0 <= q < queue.len() ==> #[trigger] queue2[q] == queue[q],
            forall|a: Action| self.in_grid(
                #[trigger] (queue[head].0 + delta(a).0),
                queue[head].1 + delta(a).1,
            ) ==> self.pending(queue2, queue.len() as int, queue[head].0 + delta(a).0, queue[head].1 + delta(a).1),
        ensures
            self.closed_ok(
                c,
                seen.update(self.index(queue[head].0 as int, queue[head].1 as int), true),
                queue2,
                head + 1,
            ),
    {
        reveal(Board::closed_ok);
        let ex = queue[head].0 as int;
        let ey = queue[head].1 as int;
        let t = self.index(ex, ey);
        self.lemma_index_bound(ex, ey);
        let seen2 = seen.update(t, true);
        assert forall|x: int, y: int, a: Action| #[trigger] self.neighbour_ok(c, seen2, queue2, head + 1, x, y, a) by {
            let nx = x + delta(a).0;
            let ny = y + delta(a).1;
            if self.in_grid(x, y) && seen2[self.index(x, y)] && self.free_in(c, nx, ny) {
                self.lemma_index_bound(x, y);
                self.lemma_index_bound(nx, ny);
                if self.index(x, y) == t {
                    self.lemma_index_inj(x, y, ex, ey);
                    assert(self.in_grid(ex + delta(a).0, ey + delta(a).1));
                    let q = choose|q: int| queue.len() <= q < queue2.len() && (#[trigger] queue2[q]).0 as int == nx
                        && queue2[q].1 as int == ny;
                    assert(head + 1 <= q);
                } else {
                    assert(seen[self.index(x, y)]);
                    assert(self.neighbour_ok(c, seen, queue, head, x, y, a));
                    if !seen[self.index(nx, ny)] {
                        let q = choose|q: int| head <= q < queue.len() && (#[trigger] queue[q]).0 as int == nx
                            && queue[q].1 as int == ny;
                        if q == head {
                            assert(seen2[self.index(nx, ny)]);
                        } else {
                            assert(queue2[q] == queue[q]);
                        }
                    }
                }
            }
        }
    }

    /// Children only grow, and reaching one more tile whose allowed pushes
    /// were all added keeps every allowed push found.
    proof fn lemma_pushes_visit(
        &self,
        c: Config,
        seen: Seq<bool>,
        ch: Seq<(BoardState, Vec<Action>)>,
        ch2: Seq<(BoardState, Vec<Action>)>,
        ex: int,
        ey: int,
    )
        requires
            self.wf(),
            seen.len() == self.size(),
            self.pushes_ok(c, seen, ch),
            self.in_grid(ex, ey),
            ch.len() <= ch2.len(),
            forall|j: int| 0 <= j < ch.len() ==> #[trigger] ch2[j] == ch[j],
            forall|a: Action| #![trigger self.push_result(((ex, ey), c.1), a)]
                self.push_ok(((ex, ey), c.1), a) && !self.has_frozen_pair(self.push_result(((ex, ey), c.1), a))
                    ==> exists|j: int| 0 <= j < ch2.len() && (#[trigger] ch2[j]).0@ == self.push_result(((ex, ey), c.1), a),
        ensures
            self.pushes_ok(c, seen.update(self.index(ex, ey), true), ch2),
    {
        reveal(Board::pushes_ok);
        let t = self.index(ex, ey);
        self.lemma_index_bound(ex, ey);
        let seen2 = seen.update(t, true);
        assert forall|x: int, y: int, a: Action| #[trigger] self.push_found(c, seen2, ch2, x, y, a) by {
            let w = ((x, y), c.1);
            if self.in_grid(x, y) && seen2[self.index(x, y)] && self.push_ok(w, a) && !self.has_frozen_pair(self.push_result(w, a)) {
                self.lemma_index_bound(x, y);
                if self.index(x, y) == t {
                    self.lemma_index_inj(x, y, ex, ey);
                    assert(self.push_result(((ex, ey), c.1), a) == self.push_result(w, a));
                } else {
                    assert(self.push_found(c, seen, ch, x, y, a));
                    let j = choose|j: int| 0 <= j < ch.len() && (#[trigger] ch[j]).0@ == self.push_result(w, a);
                    assert(ch2[j] == ch[j]);
                }
            }
        }
    }

    /// When the queue is used up, every walk from a reached tile ends on a
    /// reached tile, with the crates where they were.
    proof fn lemma_walk_seen(
        &self,
        c: Config,
        seen: Seq<bool>,
        queue: Seq<(u32, u32, Option<Action>)>,
        p: (int, int),
        acts: Seq<Action>,
    )
        requires
            self.wf(),
            seen.len() == self.size(),
            self.closed_ok(c, seen, queue, queue.len() as int),
            self.in_grid(p.0, p.1),
            seen[self.index(p.0, p.1)],
            self.walk_ok((p, c.1), acts),
        ensures
            self.run((p, c.1), acts) is Some,
            self.run((p, c.1), acts).unwrap().1 == c.1,
            self.in_grid(self.run((p, c.1), acts).unwrap().0.0, self.run((p, c.1), acts).unwrap().0.1),
            seen[self.index(self.run((p, c.1), acts).unwrap().0.0, self.run((p, c.1), acts).unwrap().0.1)],
        decreases acts.len(),
    {
        if acts.len() > 0 {
            reveal(Board::closed_ok);
            let a = acts[0];
            let nx = p.0 + delta(a).0;
            let ny = p.1 + delta(a).1;
            assert(self.neighbour_ok(c, seen, queue, queue.len() as int, p.0, p.1, a));
            assert(self.step((p, c.1), a) == Some(((nx, ny), c.1)));
            self.lemma_walk_seen(c, seen, queue, (nx, ny), acts.drop_first());
        }
    }

    /// A reached tile with a recorded step is entered by that step from a
    /// tile reached earlier.
    proof fn lemma_step_back(
        &self,
        c: Config,
        paths: Seq<Option<Action>>,
        seen: Seq<bool>,
        order: Seq<int>,
        x: int,
        y: int,
        a: Action,
    )
        requires
            self.tree_ok(c, paths, seen, order),
            self.in_grid(x, y),
            seen[self.index(x, y)],
            paths[self.index(x, y)] == Some(a),
        ensures
            self.in_grid(x - delta(a).0, y - delta(a).1),
            seen[self.index(x - delta(a).0, y - delta(a).1)],
            0 <= order[self.index(x - delta(a).0, y - delta(a).1)] < order[self.index(x, y)],
            self.step(((x - delta(a).0, y - delta(a).1), c.1), a) == Some(((x, y), c.1)),
            self.free_in(c, x, y),
    {
        reveal(Board::tree_ok);
        assert(self.tile_ok(c, paths, seen, order, x, y));
        let px = x - delta(a).0;
        let py = y - delta(a).1;
        assert(self.tile_ok(c, paths, seen, order, px, py));
    }

    /// A reached tile without a recorded step is the agent's tile.
    proof fn lemma_path_root(
        &self,
        c: Config,
        paths: Seq<Option<Action>>,
        seen: Seq<bool>,
        order: Seq<int>,
        x: int,
        y: int,
    )
        requires
            self.tree_ok(c, paths, seen, order),
            self.in_grid(x, y),
            seen[self.index(x, y)],
            paths[self.index(x, y)] is None,
        ensures
            x == c.0.0 && y == c.0.1,
            order[self.index(x, y)] >= 0,
    {
        reveal(Board::tree_ok);
        assert(self.tile_ok(c, paths, seen, order, x, y));
    }

    /// The walk from the agent's tile to `(x, y)` recorded by the walk search.
    #[verifier::rlimit(100)]
    #[verifier::spinoff_prover]
    fn read_path(
        &self,
        state: &BoardState,
        paths: &Vec<Option<Action>>,
        seen: &Vec<bool>,
        order: Ghost<Seq<int>>,
        depth: Ghost<Seq<int>>,
        x: u32,
        y: u32,
    ) -> (r: Vec<Action>)
        requires
            self.wf(),
            self.state_wf(state),
            self.tree_ok(state@, paths@, seen@, order@),
            self.depth_ok(paths@, seen@, depth@),
            self.in_grid(x as int, y as int),
            seen@[self.index(x as int, y as int)],
            forall|i: int| 0 <= i < self.size() && seen@[i] ==> #[trigger] order@[i] < self.size(),
        ensures
            self.run(state@, r@) == Some(((x as int, y as int), state@.1)),
            self.walk_ok(state@, r@),
            r@.len() < self.size(),
            r@.len() == depth@[self.index(x as int, y as int)],
    {
        proof {
            reveal(Board::tree_ok);
        }
        let ghost c = state@;
        let ghost target: Config = ((x as int, y as int), c.1);
        let mut rev: Vec<Action> = Vec::new();
        let ghost mut fwd: Seq<Action> = seq![];
        let mut cx = x;
        let mut cy = y;
        loop
            invariant
                self.wf(),
                self.state_wf(state),
                c == state@,
                self.tree_ok(c, paths@, seen@, order@),
                paths@.len() == self.size(),
                self.in_grid(cx as int, cy as int),
                seen@[self.index(cx as int, cy as int)],
                fwd.len() == rev@.len(),
                forall|j: int| 0 <= j < rev@.len() ==> #[trigger] fwd[j] == rev@[rev@.len() - 1 - j],
                self.run(((cx as int, cy as int), c.1), fwd) == Some(target),
                self.walk_ok(((cx as int, cy as int), c.1), fwd),
                fwd.len() + order@[self.index(cx as int, cy as int)] <= order@[self.index(x as int, y as int)],
                order@[self.index(cx as int, cy as int)] >= 0,
                self.depth_ok(paths@, seen@, depth@),
                fwd.len() + depth@[self.index(cx as int, cy as int)] == depth@[self.index(x as int, y as int)],
            ensures
                fwd.len() <= order@[self.index(x as int, y as int)],
                fwd.len() == depth@[self.index(x as int, y as int)],
                cx as int == c.0.0 && cy as int == c.0.1,
                fwd.len() == rev@.len(),
                forall|j: int| 0 <= j < rev@.len() ==> #[trigger] fwd[j] == rev@[rev@.len() - 1 - j],
                self.run(((cx as int, cy as int), c.1), fwd) == Some(target),
                self.walk_ok(((cx as int, cy as int), c.1), fwd),
            decreases order@[self.index(cx as int, cy as int)],
        {
            let t = self.tile(cx, cy);
            match paths[t] {
                None => {
                    proof {
                        self.lemma_path_root(c, paths@, seen@, order@, cx as int, cy as int);
                        self.lemma_depth_step(paths@, seen@, depth@, cx as int, cy as int);
                    }
                    break;
                },
                Some(a) => {
                    proof {
                        self.lemma_step_back(c, paths@, seen@, order@, cx as int, cy as int, a);
                        self.lemma_depth_step(paths@, seen@, depth@, cx as int, cy as int);
                    }
                    let (dx, dy) = offset(a);
                    let px = (cx as i64 - dx) as u32;
                    let py = (cy as i64 - dy) as u32;
                    proof {
                        let from: Config = ((px as int, py as int), c.1);
                        let nf = seq![a] + fwd;
                        assert(nf.drop_first() =~= fwd);
                        assert(nf[0] == a);
                        assert(self.run(from, nf) == Some(target));
                        assert(self.walk_ok(from, nf));
                        fwd = nf;
                    }
                    rev.push(a);
                    cx = px;
                    cy = py;
                },
            }
        }
        let mut r: Vec<Action> = Vec::new();
        let mut k: usize = rev.len();
        while k > 0
            invariant
                0 <= k <= rev@.len(),
                fwd.len() == rev@.len(),
                forall|j: int| 0 <= j < rev@.len() ==> #[trigger] fwd[j] == rev@[rev@.len() - 1 - j],
                r@ =~= fwd.subrange(0, rev@.len() - k),
            decreases k,
        {
            k -= 1;
            r.push(rev[k]);
            assert(fwd[rev@.len() - 1 - k] == rev@[k as int]);
            assert(r@ =~= fwd.subrange(0, rev@.len() - k));
        }
        assert(fwd.subrange(0, fwd.len() as int) =~= fwd);
        proof {
            self.lemma_index_bound(x as int, y as int);
        }
        assert(state@ == ((cx as int, cy as int), c.1));
        r
    }

    /// Adds the child for a push in direction `a` from the reached tile
    /// `(x, y)`, if that push is allowed.
    fn add_child(
        &self,
        state: &BoardState,
        paths: &Vec<Option<Action>>,
        seen: &Vec<bool>,
        order: Ghost<Seq<int>>,
        depth: Ghost<Seq<int>>,
        x: u32,
        y: u32,
        a: Action,
        children: &mut Vec<(BoardState, Vec<Action>)>,
    )
        requires
            self.wf(),
            self.state_wf(state),
            self.tree_ok(state@, paths@, seen@, order@),
            self.depth_ok(paths@, seen@, depth@),
            self.in_grid(x as int, y as int),
            seen@[self.index(x as int, y as int)],
            forall|i: int| 0 <= i < self.size() && seen@[i] ==> #[trigger] order@[i] < self.size(),
            self.children_ok(state@, old(children)@),
        ensures
            self.children_ok(state@, final(children)@),
            old(children)@.len() <= final(children)@.len() <= old(children)@.len() + 1,
            forall|j: int| 0 <= j < old(children)@.len() ==> #[trigger] final(children)@[j] == old(children)@[j],
            forall|j: int| old(children)@.len() <= j < final(children)@.len() ==> self.push_ok(
                ((x as int, y as int), state@.1),
                a,
            ) && (#[trigger] final(children)@[j]).0@ == self.push_result(((x as int, y as int), state@.1), a)
                && final(children)@[j].1@.len() == depth@[self.index(x as int, y as int)] + 1
                && self.run(state@, final(children)@[j].1@.drop_last()) == Some(((x as int, y as int), state@.1)),
            ({
                let w = ((x as int, y as int), state@.1);
                self.push_ok(w, a) && !self.has_frozen_pair(self.push_result(w, a)) ==> exists|j: int|
                    0 <= j < final(children)@.len() && (#[trigger] final(children)@[j]).0@ == self.push_result(w, a)
            }),
    {
        reveal(Board::children_ok);
        if let Some(child) = self.try_push(state, x, y, a) {
            let mut acts = self.read_path(state, paths, seen, order, depth, x, y);
            let ghost walk = acts@;
            acts.push(a);
            proof {
                let w: Config = ((x as int, y as int), state@.1);
                assert(acts@.drop_last() =~= walk);
                assert(self.walk_ok(state@, acts@.drop_last()));
                assert(acts@ =~= walk + seq![a]);
                self.lemma_run_concat(state@, walk, seq![a]);
                assert(self.step(w, a) == Some(self.push_result(w, a)));
                assert(seq![a].drop_first() =~= Seq::<Action>::empty());
                assert(self.run(self.push_result(w, a), Seq::<Action>::empty()) == Some(self.push_result(w, a)));
                assert(self.run(w, seq![a]) == Some(self.push_result(w, a)));
            }
            children.push((child, acts));
            assert(children@[children@.len() - 1].0@ == self.push_result(((x as int, y as int), state@.1), a));
        }
    }

    /// Appends the neighbour of `(x, y)` in direction `a`, if it is on the grid.
    fn enqueue(&self, queue: &mut Vec<(u32, u32, Option<Action>)>, x: u32, y: u32, a: Action)
        requires
            self.wf(),
            self.in_grid(x as int, y as int),
        ensures
            if self.in_grid(x + delta(a).0, y + delta(a).1) {
                final(queue)@ == old(queue)@.push(((x + delta(a).0) as u32, (y + delta(a).1) as u32, Some(a)))
            } else {
                final(queue)@ == old(queue)@
            },
    {
        let (dx, dy) = offset(a);
        let nx = x as i64 + dx;
        let ny = y as i64 + dy;
        if self.in_bounds(nx, ny) {
            queue.push((nx as u32, ny as u32, Some(a)));
        }
    }

    /// `c2` follows from `c` by the walk `acts` and then an allowed push in
    /// direction `a` that leaves no frozen pair.
    pub open spec fn succ_by(&self, c: Config, acts: Seq<Action>, a: Action, c2: Config) -> bool {
        let w = self.run(c, acts).unwrap();
        &&& self.walk_ok(c, acts)
        &&& self.push_ok(w, a)
        &&& !self.has_frozen_pair(self.push_result(w, a))
        &&& c2 == self.push_result(w, a)
    }

    /// `c2` is one of the states generated from `c`.
    pub open spec fn successor(&self, c: Config, c2: Config) -> bool {
        exists|acts: Seq<Action>, a: Action| #[trigger] self.succ_by(c, acts, a, c2)
    }

    /// Each configuration of `cs` is generated from the one before it.
    pub open spec fn succ_chain(&self, cs: Seq<Config>) -> bool {
        forall|i: int| 0 <= i < cs.len() - 1 ==> #[trigger] self.successor(cs[i], cs[i + 1])
    }

    /// Every state reachable by walking the agent over free tiles and then
    /// pushing one crate onto a free tile that is not dead, without leaving a
    /// frozen pair, each with the actions that reach it.
    #[verifier::rlimit(100)]
    #[verifier::spinoff_prover]
    pub fn create_children(&self, state: &BoardState) -> (r: Vec<(BoardState, Vec<Action>)>)
        requires
            self.wf(),
            self.state_wf(state),
        ensures
            forall|j: int| 0 <= j < r@.len() ==> self.state_wf(&#[trigger] r@[j].0)
                && self.is_child(state@, r@[j].0@, r@[j].1@),
            forall|acts: Seq<Action>, a: Action|
                self.walk_ok(state@, acts) && self.push_ok(self.run(state@, acts).unwrap(), a) && !self.has_frozen_pair(
                    self.push_result(self.run(state@, acts).unwrap(), a),
                ) ==> exists|j: int|
                    0 <= j < r@.len() && (#[trigger] r@[j]).0@ == #[trigger] self.push_result(
                        self.run(state@, acts).unwrap(),
                        a,
                    ),
            forall|c2: Config| #[trigger] self.successor(state@, c2) ==> exists|j: int|
                0 <= j < r@.len() && (#[trigger] r@[j]).0@ == c2,
            forall|i: int, j: int| 0 <= i < j < r@.len() ==> (#[trigger] r@[i]).0@ != (#[trigger] r@[j]).0@,
            forall|j: int| 0 <= j < r@.len() ==> (#[trigger] r@[j]).1@.len() <= self.size(),
            forall|j: int, w2: Seq<Action>|
                #![trigger r@[j], self.walk_ok(state@, w2)]
                0 <= j < r@.len() && self.walk_ok(state@, w2) && self.run(state@, w2).unwrap().0 == self.run(
                    state@,
                    r@[j].1@.drop_last(),
                ).unwrap().0 ==> r@[j].1@.len() <= w2.len() + 1,
    {
        let ghost c = state@;
        let n = self.walls.len();
        let mut children: Vec<(BoardState, Vec<Action>)> = Vec::new();
        let mut paths: Vec<Option<Action>> = filled(None, n);
        let mut seen: Vec<bool> = filled(false, n);
        let ghost mut order: Seq<int> = Seq::new(n as nat, |i: int| 0);
        let ghost mut depth: Seq<int> = Seq::new(n as nat, |i: int| 0);
        let ghost mut lo: int = 0;
        let ghost mut seen_set: Set<int> = Set::empty();
        let mut queue: Vec<(u32, u32, Option<Action>)> = Vec::new();
        queue.push((state.player.0, state.player.1, None));
        let mut head: usize = 0;
        proof {
            reveal(Board::tree_ok);
            reveal(Board::children_ok);
            vstd::set_lib::lemma_int_range(0, n as int);
            assert forall|x2: int, y2: int| self.in_grid(x2, y2) && #[trigger] seen@[self.index(x2, y2)] implies self.tile_ok(
                c,
                paths@,
                seen@,
                order,
                x2,
                y2,
            ) by {
                self.lemma_index_bound(x2, y2);
            }
            assert(seen_set =~= Set::new(|i: int| 0 <= i < n && seen@[i]));
            reveal(Board::closed_ok);
            reveal(Board::pushes_ok);
            reveal(Board::origins_ok);
            reveal(Board::depth_ok);
            reveal(Board::layer_ok);
            reveal(Board::walks_ok);
            assert forall|x2: int, y2: int| self.in_grid(x2, y2) && #[trigger] seen@[self.index(x2, y2)] implies match paths@[self.index(x2, y2)] {
                None => depth[self.index(x2, y2)] == 0,
                Some(a) => depth[self.index(x2, y2)] == depth[self.index(x2 - delta(a).0, y2 - delta(a).1)] + 1,
            } by {
                self.lemma_index_bound(x2, y2);
            }
            assert forall|x: int, y: int, a: Action| #[trigger] self.layer_step_ok(c, seen@, depth, queue@, 0, x, y, a) by {
                if self.in_grid(x, y) {
                    self.lemma_index_bound(x, y);
                }
            }
            assert forall|x2: int, y2: int| self.in_grid(x2, y2) && #[trigger] seen@[self.index(x2, y2)] implies depth[self.index(x2, y2)] <= lo by {
                self.lemma_index_bound(x2, y2);
            }
            assert(self.entry_depth(depth, queue@[0]) == 0);
            assert forall|x: int, y: int, a: Action| #[trigger] self.neighbour_ok(c, seen@, queue@, 0, x, y, a) by {
                if self.in_grid(x, y) {
                    self.lemma_index_bound(x, y);
                }
            }
            assert forall|x: int, y: int, a: Action| #[trigger] self.push_found(c, seen@, children@, x, y, a) by {
                if self.in_grid(x, y) {
                    self.lemma_index_bound(x, y);
                }
            }
        }
        let ghost si = self.index(state.player.0 as int, state.player.1 as int);
        proof {
            self.lemma_index_bound(state.player.0 as int, state.player.1 as int);
        }
        while head < queue.len()
            invariant
                self.wf(),
                self.state_wf(state),
                c == state@,
                n == self.size(),
                self.tree_ok(c, paths@, seen@, order),
                self.depth_ok(paths@, seen@, depth),
                depth.len() == n,
                self.layer_ok(c, seen@, depth, queue@, head as int, lo),
                self.walks_ok(c, seen@, depth, children@),
                paths@.len() == n,
                seen@.len() == n,
                order.len() == n,
                forall|i: int| #[trigger] seen_set.contains(i) <==> (0 <= i < n && seen@[i]),
                seen_set.finite(),
                seen_set.len() <= n,
                vstd::set_lib::set_int_range(0, n as int).finite(),
                vstd::set_lib::set_int_range(0, n as int).len() == n,
                forall|i: int| 0 <= i < n && seen@[i] ==> #[trigger] order[i] < seen_set.len(),
                0 <= head <= queue@.len(),
                forall|q: int| head <= q < queue@.len() ==> self.entry_ok(c, seen@, #[trigger] queue@[q]),
                self.children_ok(c, children@),
                self.closed_ok(c, seen@, queue@, head as int),
                self.pushes_ok(c, seen@, children@),
                self.origins_ok(c, seen@, children@),
                queue@.len() >= 1,
                si == self.index(c.0.0, c.0.1),
                0 <= si < n,
                head == 0 ==> queue@[0] == (state.player.0, state.player.1, None::<Action>) && forall|i: int|
                    0 <= i < n ==> !#[trigger] seen@[i],
                head > 0 ==> seen@[si],
                head > 0 ==> depth[si] == 0,
            decreases 4 * (n - seen_set.len()) + queue@.len() - head,
        {
            let (x, y, from) = queue[head];
            assert(self.entry_ok(c, seen@, queue@[head as int]));
            let ghost h0 = head as int;
            let ghost q0 = queue@;
            let ghost ch0 = children@;
            head += 1;
            let t = self.tile(x, y);
            if seen[t] || !self.is_empty(state, x as i64, y as i64) {
                proof {
                    self.lemma_layer_skip(c, seen@, depth, q0, h0, lo);
                    lo = self.entry_depth(depth, q0[h0]);
                    self.lemma_closed_skip(c, seen@, q0, h0);
                    if h0 == 0 {
                        assert(false);
                    }
                }
            } else {
                let ghost old_seen = seen@;
                let ghost old_paths = paths@;
                let ghost old_order = order;
                let ghost old_set = seen_set;
                seen.set(t, true);
                paths.set(t, from);
                let ghost old_depth = depth;
                let ghost k = self.entry_depth(depth, q0[h0]);
                proof {
                    self.lemma_mark_depth(c, old_paths, old_seen, depth, old_order, x as int, y as int, from, k);
                    depth = depth.update(t as int, k);
                    self.lemma_mark(c, old_paths, old_seen, old_order, x as int, y as int, from, seen_set.len() as int);
                    order = order.update(t as int, seen_set.len() as int);
                    seen_set = seen_set.insert(t as int);
                    assert(seen_set.subset_of(vstd::set_lib::set_int_range(0, n as int)));
                    vstd::set_lib::lemma_len_subset(seen_set, vstd::set_lib::set_int_range(0, n as int));
                    assert(paths@ == old_paths.update(t as int, from));
                    assert(seen@ == old_seen.update(t as int, true));
                    assert forall|q: int| head <= q < queue@.len() implies self.entry_ok(c, seen@, #[trigger] queue@[q]) by {
                        assert(self.entry_ok(c, old_seen, queue@[q]));
                        match queue@[q].2 {
                            Some(a) => {
                                let px = queue@[q].0 - delta(a).0;
                                let py = queue@[q].1 - delta(a).1;
                                self.lemma_index_bound(px, py);
                            },
                            None => {},
                        }
                    }
                }
                let ghost wt: Config = ((x as int, y as int), c.1);
                self.add_child(state, &paths, &seen, Ghost(order), Ghost(depth), x, y, Action::Up, &mut children);
                let ghost ch1 = children@;
                proof {
                    if ch1.len() > ch0.len() {
                        assert(ch1[ch0.len() as int].0@ == self.push_result(wt, Action::Up));
                    }
                    assert(self.added(wt, Action::Up, ch0, ch1));
                    if ch1.len() > ch0.len() {
                        assert(ch1[ch0.len() as int].1@.len() == k + 1);
                    }
                    assert(self.walk_added(c, x as int, y as int, k + 1, ch0, ch1));
                }
                self.add_child(state, &paths, &seen, Ghost(order), Ghost(depth), x, y, Action::Down, &mut children);
                let ghost ch2 = children@;
                proof {
                    if ch2.len() > ch1.len() {
                        assert(ch2[ch1.len() as int].0@ == self.push_result(wt, Action::Down));
                    }
                    assert(self.added(wt, Action::Down, ch1, ch2));
                    if ch2.len() > ch1.len() {
                        assert(ch2[ch1.len() as int].1@.len() == k + 1);
                    }
                    assert(self.walk_added(c, x as int, y as int, k + 1, ch1, ch2));
                }
                self.add_child(state, &paths, &seen, Ghost(order), Ghost(depth), x, y, Action::Left, &mut children);
                let ghost ch3 = children@;
                proof {
                    if ch3.len() > ch2.len() {
                        assert(ch3[ch2.len() as int].0@ == self.push_result(wt, Action::Left));
                    }
                    assert(self.added(wt, Action::Left, ch2, ch3));
                    if ch3.len() > ch2.len() {
                        assert(ch3[ch2.len() as int].1@.len() == k + 1);
                    }
                    assert(self.walk_added(c, x as int, y as int, k + 1, ch2, ch3));
                }
                self.add_child(state, &paths, &seen, Ghost(order), Ghost(depth), x, y, Action::Right, &mut children);
                let ghost ch4 = children@;
                proof {
                    if ch4.len() > ch3.len() {
                        assert(ch4[ch3.len() as int].0@ == self.push_result(wt, Action::Right));
                    }
                    assert(self.added(wt, Action::Right, ch3, ch4));
                    if ch4.len() > ch3.len() {
                        assert(ch4[ch3.len() as int].1@.len() == k + 1);
                    }
                    assert(self.walk_added(c, x as int, y as int, k + 1, ch3, ch4));
                    self.lemma_new_children(wt, ch0, ch1, ch2, ch3, ch4);
                }
                self.enqueue(&mut queue, x, y, Action::Up);
                let ghost q1 = queue@;
                self.enqueue(&mut queue, x, y, Action::Down);
                let ghost q2 = queue@;
                self.enqueue(&mut queue, x, y, Action::Left);
                let ghost q3 = queue@;
                self.enqueue(&mut queue, x, y, Action::Right);
                proof {
                    self.lemma_index_bound(x as int, y as int);
                    assert(queue@.len() <= q0.len() + 4);
                    assert(forall|q: int| 0 <= q < q0.len() ==> queue@[q] == q0[q]);
                    let xi = x as int;
                    let yi = y as int;
                    assert forall|a: Action| self.in_grid(#[trigger] (xi + delta(a).0), yi + delta(a).1) implies self.pending(
                        queue@,
                        q0.len() as int,
                        xi + delta(a).0,
                        yi + delta(a).1,
                    ) by {
                        let nx = xi + delta(a).0;
                        let ny = yi + delta(a).1;
                        match a {
                            Action::Up => {
                                let q = q0.len() as int;
                                assert(queue@[q] == q1[q]);
                                assert(queue@[q].0 as int == nx && queue@[q].1 as int == ny);
                            },
                            Action::Down => {
                                let q = q1.len() as int;
                                assert(queue@[q] == q2[q]);
                                assert(queue@[q].0 as int == nx && queue@[q].1 as int == ny);
                            },
                            Action::Left => {
                                let q = q2.len() as int;
                                assert(queue@[q] == q3[q]);
                                assert(queue@[q].0 as int == nx && queue@[q].1 as int == ny);
                            },
                            Action::Right => {
                                let q = q3.len() as int;
                                assert(queue@[q].0 as int == nx && queue@[q].1 as int == ny);
                            },
                        }
                    }
                    assert(q0[h0].0 == x && q0[h0].1 == y);
                    self.lemma_closed_visit(c, old_seen, q0, h0, queue@);
                    let w = ((xi, yi), c.1);
                    assert forall|a: Action| #![trigger self.push_result(((xi, yi), c.1), a)]
                        self.push_ok(((xi, yi), c.1), a) && !self.has_frozen_pair(self.push_result(((xi, yi), c.1), a))
                            implies exists|j: int| 0 <= j < children@.len() && (#[trigger] children@[j]).0@ == self.push_result(
                            ((xi, yi), c.1),
                            a,
                        ) by {
                        match a {
                            Action::Up => {
                                let j = choose|j: int| 0 <= j < ch1.len() && (#[trigger] ch1[j]).0@ == self.push_result(w, a);
                                assert(children@[j] == ch1[j]);
                            },
                            Action::Down => {
                                let j = choose|j: int| 0 <= j < ch2.len() && (#[trigger] ch2[j]).0@ == self.push_result(w, a);
                                assert(children@[j] == ch2[j]);
                            },
                            Action::Left => {
                                let j = choose|j: int| 0 <= j < ch3.len() && (#[trigger] ch3[j]).0@ == self.push_result(w, a);
                                assert(children@[j] == ch3[j]);
                            },
                            Action::Right => {},
                        }
                    }
                    assert(forall|j: int| 0 <= j < ch0.len() ==> children@[j] == ch0[j]);
                    self.lemma_pushes_visit(c, old_seen, ch0, children@, xi, yi);
                    assert(!old_seen[self.index(xi, yi)]);
                    self.lemma_origins_visit(c, old_seen, ch0, children@, xi, yi);
                    self.lemma_walks_visit(c, old_seen, old_depth, xi, yi, k, ch0, ch1, ch2, ch3, ch4);
                    assert forall|q: int| q0.len() <= q < queue@.len() implies (#[trigger] queue@[q]).2 is Some && queue@[q].0 as int
                        == q0[h0].0 + delta(queue@[q].2.unwrap()).0 && queue@[q].1 as int == q0[h0].1 + delta(
                        queue@[q].2.unwrap(),
                    ).1 by {
                        if q < q1.len() {
                            assert(queue@[q] == q3[q] && q3[q] == q2[q] && q2[q] == q1[q]);
                        } else if q < q2.len() {
                            assert(queue@[q] == q3[q] && q3[q] == q2[q]);
                        } else if q < q3.len() {
                            assert(queue@[q] == q3[q]);
                        }
                    }
                    self.lemma_layer_visit(c, old_seen, old_depth, q0, h0, lo, queue@);
                    lo = k;
                    if h0 == 0 {
                        assert(t == si);
                    } else {
                        assert(old_seen[si]);
                    }
                    if h0 == 0 {
                        assert(t == si);
                    } else {
                        assert(old_seen[si]);
                    }
                }
            }
        }
        proof {
            reveal(Board::children_ok);
            reveal(Board::origins_ok);
            reveal(Board::walks_ok);
            assert forall|j: int, w2: Seq<Action>|
                #![trigger children@[j], self.walk_ok(state@, w2)]
                0 <= j < children@.len() && self.walk_ok(state@, w2) && self.run(state@, w2).unwrap().0 == self.run(
                    state@,
                    children@[j].1@.drop_last(),
                ).unwrap().0 implies children@[j].1@.len() <= w2.len() + 1 by {
                assert(head > 0);
                self.lemma_layer_walk(c, seen@, depth, queue@, lo, c.0, w2);
                let e = self.run(c, children@[j].1@.drop_last()).unwrap();
                assert(children@[j].1@.len() == depth[self.index(e.0.0, e.0.1)] + 1);
            }
            assert forall|acts: Seq<Action>, a: Action|
                self.walk_ok(state@, acts) && self.push_ok(self.run(state@, acts).unwrap(), a) && !self.has_frozen_pair(
                    self.push_result(self.run(state@, acts).unwrap(), a),
                ) implies exists|j: int|
                    0 <= j < children@.len() && (#[trigger] children@[j]).0@ == self.push_result(
                        self.run(state@, acts).unwrap(),
                        a,
                    ) by {
                self.lemma_walk_seen(c, seen@, queue@, c.0, acts);
                let e = self.run(state@, acts).unwrap();
                reveal(Board::pushes_ok);
                assert(self.push_found(c, seen@, children@, e.0.0, e.0.1, a));
            }
            assert forall|c2: Config| #[trigger] self.successor(state@, c2) implies exists|j: int|
                0 <= j < children@.len() && (#[trigger] children@[j]).0@ == c2 by {
                let (acts, a) = choose|acts: Seq<Action>, a: Action| #[trigger] self.succ_by(state@, acts, a, c2);
                self.lemma_walk_seen(c, seen@, queue@, c.0, acts);
                let e = self.run(state@, acts).unwrap();
                reveal(Board::pushes_ok);
                assert(self.push_found(c, seen@, children@, e.0.0, e.0.1, a));
            }
        }
        children
    }

    /// A number that tells apart the states of this board.
    pub open spec fn state_code(&self, s: &BoardState) -> int {
        self.index(s.player_pos().0, s.player_pos().1) * pow2n(self.size() as nat) + bits_value(s.bits())
    }

    /// More than the number of distinct states of this board times the
    /// number of tiles.
    pub open spec fn node_bound(&self) -> int {
        self.size() * self.size() * pow2n(self.size() as nat)
    }

    /// A well-formed board has at least one tile.
    pub proof fn lemma_size_pos(&self)
        requires
            self.wf(),
        ensures
            1 <= self.size(),
    {
        let w = self.width();
        let h = self.height();
        assert(1 <= w * h) by (nonlinear_arith)
            requires
                1 <= w,
                1 <= h,
        ;
    }

    /// State codes lie below `size * 2^size`, and states with the same code
    /// are equal.
    pub proof fn lemma_state_code(&self, a: &BoardState, b: &BoardState)
        requires
            self.wf(),
            self.state_wf(a),
            self.state_wf(b),
        ensures
            0 <= self.state_code(a) < self.size() * pow2n(self.size() as nat),
            self.state_code(a) == self.state_code(b) ==> a@ == b@ && a.bits().len() == b.bits().len(),
    {
        let p = pow2n(self.size() as nat) as int;
        lemma_bits_value_bound(a.bits());
        lemma_bits_value_bound(b.bits());
        let ia = self.index(a.player_pos().0, a.player_pos().1);
        let ib = self.index(b.player_pos().0, b.player_pos().1);
        self.lemma_index_bound(a.player_pos().0, a.player_pos().1);
        self.lemma_index_bound(b.player_pos().0, b.player_pos().1);
        let va = bits_value(a.bits()) as int;
        assert(ia * p + va < self.size() * p) by (nonlinear_arith)
            requires
                0 <= ia < self.size(),
                0 <= va < p,
        ;
        assert(0 <= ia * p) by (nonlinear_arith)
            requires
                0 <= ia,
                0 <= p,
        ;
        if self.state_code(a) == self.state_code(b) {
            lemma_code_split(ia, va, ib, bits_value(b.bits()) as int, p);
            self.lemma_index_inj(a.player_pos().0, a.player_pos().1, b.player_pos().0, b.player_pos().1);
            lemma_bits_value_inj(a.bits(), b.bits());
            assert(a.occupied() =~= b.occupied());
        }
    }

    /// Fitting this board depends only on the agent's tile and the bits.
    pub proof fn lemma_state_wf_same(&self, a: &BoardState, b: &BoardState)
        requires
            self.state_wf(a),
            a.player_pos() == b.player_pos(),
            a.bits() == b.bits(),
        ensures
            self.state_wf(b),
    {
    }

    /// No crate stands on a dead tile.
    pub open spec fn no_dead_crate(&self, c: Config) -> bool {
        forall|x: int, y: int| #[trigger] self.crate_in(c, x, y) ==> !self.dead_at(x, y)
    }

    /// A generated child never holds a crate on a dead tile unless its parent
    /// already did: pushes onto dead tiles are not generated.
    pub proof fn lemma_child_avoids_dead(&self, c: Config, child: Config, acts: Seq<Action>)
        requires
            self.wf(),
            self.is_child(c, child, acts),
            self.no_dead_crate(c),
        ensures
            self.no_dead_crate(child),
    {
        let w = self.run(c, acts.drop_last()).unwrap();
        let a = acts.last();
        let bx = w.0.0 + 2 * delta(a).0;
        let by = w.0.1 + 2 * delta(a).1;
        assert forall|x: int, y: int| #[trigger] self.crate_in(child, x, y) implies !self.dead_at(x, y) by {
            if self.index(x, y) == self.index(bx, by) {
                self.lemma_index_inj(x, y, bx, by);
            } else {
                assert(self.crate_in(c, x, y));
            }
        }
    }

    /// A crate on a corner stays there through one step of an agent that
    /// stands off the walls, and the agent stays off the walls.
    proof fn lemma_corner_step(&self, c: Config, a: Action, x: int, y: int)
        requires
            self.wf(),
            self.crate_in(c, x, y),
            self.corner_at(x, y),
            !self.wall_at(c.0.0, c.0.1),
            self.step(c, a) is Some,
        ensures
            self.crate_in(self.step(c, a).unwrap(), x, y),
            !self.wall_at(self.step(c, a).unwrap().0.0, self.step(c, a).unwrap().0.1),
    {
        let nx = c.0.0 + delta(a).0;
        let ny = c.0.1 + delta(a).1;
        let n = self.step(c, a).unwrap();
        self.lemma_index_bound(x, y);
        if self.crate_in(c, nx, ny) {
            let bx = nx + delta(a).0;
            let by = ny + delta(a).1;
            if self.index(nx, ny) == self.index(x, y) {
                self.lemma_index_inj(nx, ny, x, y);
                assert(false);
            }
            if self.in_grid(bx, by) {
                self.lemma_index_bound(bx, by);
            }
            assert(n.1.contains(self.index(x, y)));
        }
    }

    /// A crate on a corner never moves again.
    pub proof fn lemma_corner_crate_stuck(&self, c: Config, acts: Seq<Action>, x: int, y: int)
        requires
            self.wf(),
            self.crate_in(c, x, y),
            self.corner_at(x, y),
            !self.wall_at(c.0.0, c.0.1),
            self.run(c, acts) is Some,
        ensures
            self.crate_in(self.run(c, acts).unwrap(), x, y),
        decreases acts.len(),
    {
        if acts.len() > 0 {
            self.lemma_corner_step(c, acts[0], x, y);
            self.lemma_corner_crate_stuck(self.step(c, acts[0]).unwrap(), acts.drop_first(), x, y);
        }
    }

    /// The row-major indices of the goal tiles.
    pub open spec fn goal_set(&self) -> Set<int> {
        Set::new(|i: int| exists|x: int, y: int| #[trigger] self.goal_at(x, y) && i == self.index(x, y))
    }

    /// A step keeps the number of crates and keeps them on the grid.
    proof fn lemma_step_count(&self, c: Config, a: Action)
        requires
            self.wf(),
            c.1.finite(),
            c.1.subset_of(vstd::set_lib::set_int_range(0, self.size())),
            self.step(c, a) is Some,
        ensures
            self.step(c, a).unwrap().1.finite(),
            self.step(c, a).unwrap().1.len() == c.1.len(),
            self.step(c, a).unwrap().1.subset_of(vstd::set_lib::set_int_range(0, self.size())),
    {
        let nx = c.0.0 + delta(a).0;
        let ny = c.0.1 + delta(a).1;
        if self.crate_in(c, nx, ny) {
            let bx = nx + delta(a).0;
            let by = ny + delta(a).1;
            self.lemma_index_bound(bx, by);
            self.lemma_index_bound(nx, ny);
            assert(!c.1.contains(self.index(bx, by)));
        }
    }

    proof fn lemma_run_count(&self, c: Config, acts: Seq<Action>)
        requires
            self.wf(),
            c.1.finite(),
            c.1.subset_of(vstd::set_lib::set_int_range(0, self.size())),
            self.run(c, acts) is Some,
        ensures
            self.run(c, acts).unwrap().1.finite(),
            self.run(c, acts).unwrap().1.len() == c.1.len(),
        decreases acts.len(),
    {
        if acts.len() > 0 {
            self.lemma_step_count(c, acts[0]);
            self.lemma_run_count(self.step(c, acts[0]).unwrap(), acts.drop_first());
        }
    }

    /// Dead corners are sound: when there are as many crates as goal tiles,
    /// a crate on a corner that is not a goal means that no sequence of
    /// actions ever solves the level.
    pub proof fn lemma_corner_unsolvable(&self, c: Config, acts: Seq<Action>, x: int, y: int)
        requires
            self.wf(),
            c.1.finite(),
            c.1.subset_of(vstd::set_lib::set_int_range(0, self.size())),
            c.1.len() == self.goal_set().len(),
            self.crate_in(c, x, y),
            self.corner_at(x, y),
            !self.goal_at(x, y),
            !self.wall_at(c.0.0, c.0.1),
            self.run(c, acts) is Some,
        ensures
            !self.solved(self.run(c, acts).unwrap()),
    {
        let r = self.run(c, acts).unwrap();
        self.lemma_corner_crate_stuck(c, acts, x, y);
        self.lemma_run_count(c, acts);
        self.lemma_stuck_unsolved(c, r, x, y);
    }

    /// The agent stands on a tile that is neither a wall nor a crate.
    pub open spec fn agent_free(&self, c: Config) -> bool {
        self.free_in(c, c.0.0, c.0.1)
    }

    /// Crates on `(x, y)` and `(x + ex, y + ey)` with walls just beyond both
    /// in direction `(fx, fy)`, across the line that joins them.
    pub open spec fn locked_pair(&self, c: Config, x: int, y: int, ex: int, ey: int, fx: int, fy: int) -> bool {
        &&& (ex == 1 && ey == 0 && fx == 0 && (fy == 1 || fy == -1)) || (ex == 0 && ey == 1 && fy == 0 && (fx == 1 || fx == -1))
        &&& self.crate_in(c, x, y)
        &&& self.crate_in(c, x + ex, y + ey)
        &&& self.wall_at(x + fx, y + fy)
        &&& self.wall_at(x + ex + fx, y + ey + fy)
    }

    /// One step keeps a locked pair in place and the agent free.
    proof fn lemma_locked_step(&self, c: Config, a: Action, x: int, y: int, ex: int, ey: int, fx: int, fy: int)
        requires
            self.wf(),
            self.locked_pair(c, x, y, ex, ey, fx, fy),
            self.agent_free(c),
            self.step(c, a) is Some,
        ensures
            self.locked_pair(self.step(c, a).unwrap(), x, y, ex, ey, fx, fy),
            self.agent_free(self.step(c, a).unwrap()),
    {
        let nx = c.0.0 + delta(a).0;
        let ny = c.0.1 + delta(a).1;
        let n = self.step(c, a).unwrap();
        self.lemma_index_bound(x, y);
        self.lemma_index_bound(x + ex, y + ey);
        if self.crate_in(c, nx, ny) {
            let bx = nx + delta(a).0;
            let by = ny + delta(a).1;
            self.lemma_index_bound(nx, ny);
            self.lemma_index_bound(bx, by);
            if self.index(nx, ny) == self.index(x, y) {
                self.lemma_index_inj(nx, ny, x, y);
                assert(false);
            }
            if self.index(nx, ny) == self.index(x + ex, y + ey) {
                self.lemma_index_inj(nx, ny, x + ex, y + ey);
                assert(false);
            }
            assert(n.1.contains(self.index(x, y)));
            assert(n.1.contains(self.index(x + ex, y + ey)));
            if self.index(nx, ny) == self.index(bx, by) {
                self.lemma_index_inj(nx, ny, bx, by);
            }
        }
    }

    proof fn lemma_locked_run(&self, c: Config, acts: Seq<Action>, x: int, y: int, ex: int, ey: int, fx: int, fy: int)
        requires
            self.wf(),
            self.locked_pair(c, x, y, ex, ey, fx, fy),
            self.agent_free(c),
            self.run(c, acts) is Some,
        ensures
            self.locked_pair(self.run(c, acts).unwrap(), x, y, ex, ey, fx, fy),
        decreases acts.len(),
    {
        if acts.len() > 0 {
            self.lemma_locked_step(c, acts[0], x, y, ex, ey, fx, fy);
            self.lemma_locked_run(self.step(c, acts[0]).unwrap(), acts.drop_first(), x, y, ex, ey, fx, fy);
        }
    }

    /// A crate that never leaves a tile without a goal, with as many crates
    /// as goal tiles, leaves the level unsolved.
    proof fn lemma_stuck_unsolved(&self, c: Config, r: Config, x: int, y: int)
        requires
            self.wf(),
            r.1.finite(),
            r.1.len() == self.goal_set().len(),
            self.crate_in(r, x, y),
            !self.goal_at(x, y),
        ensures
            !self.solved(r),
    {
        if self.solved(r) {
            let t = self.index(x, y);
            assert forall|i: int| #[trigger] self.goal_set().insert(t).contains(i) implies r.1.contains(i) by {
                if i != t {
                    let (gx, gy) = choose|gx: int, gy: int| #[trigger] self.goal_at(gx, gy) && i == self.index(gx, gy);
                    let k = choose|k: int|
                        0 <= k < self.goals.len() && (#[trigger] self.goals@[k]).0 as int == gx && self.goals@[k].1 as int == gy;
                    assert(self.crate_in(r, self.goal_list()[k].0 as int, self.goal_list()[k].1 as int));
                }
            }
            assert(!self.goal_set().contains(t)) by {
                if self.goal_set().contains(t) {
                    let (gx, gy) = choose|gx: int, gy: int| #[trigger] self.goal_at(gx, gy) && t == self.index(gx, gy);
                    self.lemma_index_inj(gx, gy, x, y);
                }
            }
            vstd::set_lib::lemma_len_subset(self.goal_set().insert(t), r.1);
            assert(self.goal_set().subset_of(r.1));
            vstd::set_lib::lemma_len_subset(self.goal_set(), r.1);
        }
    }

    /// One step keeps the agent on a free tile.
    proof fn lemma_agent_free_step(&self, c: Config, a: Action)
        requires
            self.wf(),
            self.agent_free(c),
            self.step(c, a) is Some,
        ensures
            self.agent_free(self.step(c, a).unwrap()),
    {
        let nx = c.0.0 + delta(a).0;
        let ny = c.0.1 + delta(a).1;
        if self.crate_in(c, nx, ny) {
            let bx = nx + delta(a).0;
            let by = ny + delta(a).1;
            self.lemma_index_bound(nx, ny);
            self.lemma_index_bound(bx, by);
            if self.index(nx, ny) == self.index(bx, by) {
                self.lemma_index_inj(nx, ny, bx, by);
            }
        }
    }

    /// Some crate stands on row `y` between columns `x0` and `x1`.
    pub open spec fn crate_in_row_run(&self, c: Config, x0: int, x1: int, y: int) -> bool {
        exists|a: int| x0 <= a <= x1 && #[trigger] self.crate_in(c, a, y)
    }

    /// Some crate stands on column `x` between rows `y0` and `y1`.
    pub open spec fn crate_in_col_run(&self, c: Config, x: int, y0: int, y1: int) -> bool {
        exists|b: int| y0 <= b <= y1 && #[trigger] self.crate_in(c, x, b)
    }

    proof fn lemma_row_run_step(&self, m: Seq<bool>, c: Config, act: Action, x0: int, x1: int, y: int, side: int)
        requires
            self.wf(),
            side == -1 || side == 1,
            self.corner_at(x0, y),
            self.sealed_across(m, x0, x1, y, side),
            self.crate_in_row_run(c, x0, x1, y),
            self.agent_free(c),
            self.step(c, act) is Some,
        ensures
            self.crate_in_row_run(self.step(c, act).unwrap(), x0, x1, y),
    {
        let a = choose|a: int| x0 <= a <= x1 && #[trigger] self.crate_in(c, a, y);
        assert(self.across_tile(m, a, y, side));
        let nx = c.0.0 + delta(act).0;
        let ny = c.0.1 + delta(act).1;
        let r = self.step(c, act).unwrap();
        self.lemma_index_bound(a, y);
        if self.crate_in(c, nx, ny) && self.index(nx, ny) == self.index(a, y) {
            self.lemma_index_inj(nx, ny, a, y);
            let bx = nx + delta(act).0;
            let by = ny + delta(act).1;
            self.lemma_index_bound(bx, by);
            if act == Action::Right {
                if a == x1 {
                    assert(false);
                }
                assert(self.across_tile(m, a + 1, y, side));
                assert(self.crate_in(r, a + 1, y));
            } else if act == Action::Left {
                if a == x0 {
                    assert(self.wall_at(x0 - 1, y) || self.wall_at(x0 + 1, y));
                    assert(false);
                }
                assert(self.across_tile(m, a - 1, y, side));
                assert(self.crate_in(r, a - 1, y));
            } else {
                assert(false);
            }
        } else {
            if self.crate_in(c, nx, ny) {
                let bx = nx + delta(act).0;
                let by = ny + delta(act).1;
                self.lemma_index_bound(bx, by);
                self.lemma_index_bound(nx, ny);
            }
            assert(self.crate_in(r, a, y));
        }
    }

    proof fn lemma_col_run_step(&self, m: Seq<bool>, c: Config, act: Action, x: int, y0: int, y1: int, side: int)
        requires
            self.wf(),
            side == -1 || side == 1,
            self.corner_at(x, y0),
            self.sealed_down(m, x, y0, y1, side),
            self.crate_in_col_run(c, x, y0, y1),
            self.agent_free(c),
            self.step(c, act) is Some,
        ensures
            self.crate_in_col_run(self.step(c, act).unwrap(), x, y0, y1),
    {
        let b = choose|b: int| y0 <= b <= y1 && #[trigger] self.crate_in(c, x, b);
        assert(self.down_tile(m, x, b, side));
        let nx = c.0.0 + delta(act).0;
        let ny = c.0.1 + delta(act).1;
        let r = self.step(c, act).unwrap();
        self.lemma_index_bound(x, b);
        if self.crate_in(c, nx, ny) && self.index(nx, ny) == self.index(x, b) {
            self.lemma_index_inj(nx, ny, x, b);
            let bx = nx + delta(act).0;
            let by = ny + delta(act).1;
            self.lemma_index_bound(bx, by);
            if act == Action::Down {
                if b == y1 {
                    assert(false);
                }
                assert(self.down_tile(m, x, b + 1, side));
                assert(self.crate_in(r, x, b + 1));
            } else if act == Action::Up {
                if b == y0 {
                    assert(self.wall_at(x, y0 - 1) || self.wall_at(x, y0 + 1));
                    assert(false);
                }
                assert(self.down_tile(m, x, b - 1, side));
                assert(self.crate_in(r, x, b - 1));
            } else {
                assert(false);
            }
        } else {
            if self.crate_in(c, nx, ny) {
                let bx = nx + delta(act).0;
                let by = ny + delta(act).1;
                self.lemma_index_bound(bx, by);
                self.lemma_index_bound(nx, ny);
            }
            assert(self.crate_in(r, x, b));
        }
    }

    proof fn lemma_row_run_keeps(&self, m: Seq<bool>, c: Config, acts: Seq<Action>, x0: int, x1: int, y: int, side: int)
        requires
            self.wf(),
            side == -1 || side == 1,
            self.corner_at(x0, y),
            self.sealed_across(m, x0, x1, y, side),
            self.crate_in_row_run(c, x0, x1, y),
            self.agent_free(c),
            self.run(c, acts) is Some,
        ensures
            self.crate_in_row_run(self.run(c, acts).unwrap(), x0, x1, y),
        decreases acts.len(),
    {
        if acts.len() > 0 {
            self.lemma_row_run_step(m, c, acts[0], x0, x1, y, side);
            self.lemma_agent_free_step(c, acts[0]);
            self.lemma_row_run_keeps(m, self.step(c, acts[0]).unwrap(), acts.drop_first(), x0, x1, y, side);
        }
    }

    proof fn lemma_col_run_keeps(&self, m: Seq<bool>, c: Config, acts: Seq<Action>, x: int, y0: int, y1: int, side: int)
        requires
            self.wf(),
            side == -1 || side == 1,
            self.corner_at(x, y0),
            self.sealed_down(m, x, y0, y1, side),
            self.crate_in_col_run(c, x, y0, y1),
            self.agent_free(c),
            self.run(c, acts) is Some,
        ensures
            self.crate_in_col_run(self.run(c, acts).unwrap(), x, y0, y1),
        decreases acts.len(),
    {
        if acts.len() > 0 {
            self.lemma_col_run_step(m, c, acts[0], x, y0, y1, side);
            self.lemma_agent_free_step(c, acts[0]);
            self.lemma_col_run_keeps(m, self.step(c, acts[0]).unwrap(), acts.drop_first(), x, y0, y1, side);
        }
    }

    /// Dead tiles are sound: when there are as many crates as goal tiles
    /// and the agent stands on a free tile, a crate on a tile with a reason
    /// to be dead (a corner without a goal, or a sealed run from one) means
    /// that no sequence of actions ever solves the level.
    pub proof fn lemma_dead_crate_unsolvable(&self, m: Seq<bool>, c: Config, acts: Seq<Action>, x: int, y: int)
        requires
            self.wf(),
            c.1.finite(),
            c.1.subset_of(vstd::set_lib::set_int_range(0, self.size())),
            c.1.len() == self.goal_set().len(),
            self.agent_free(c),
            self.crate_in(c, x, y),
            self.dead_reason(m, x, y),
            self.run(c, acts) is Some,
        ensures
            !self.solved(self.run(c, acts).unwrap()),
    {
        let r = self.run(c, acts).unwrap();
        self.lemma_run_count(c, acts);
        if self.dead_corner(m, x, y) {
            self.lemma_corner_unsolvable(c, acts, x, y);
        } else if exists|x0: int, x1: int, side: int|
            (side == -1 || side == 1) && self.dead_corner(m, x0, y) && #[trigger] self.sealed_across(m, x0, x1, y, side) && x0 <= x <= x1 {
            let (x0, x1, side) = choose|x0: int, x1: int, side: int|
                (side == -1 || side == 1) && self.dead_corner(m, x0, y) && #[trigger] self.sealed_across(m, x0, x1, y, side) && x0 <= x
                    <= x1;
            assert(self.crate_in_row_run(c, x0, x1, y));
            self.lemma_row_run_keeps(m, c, acts, x0, x1, y, side);
            let a = choose|a: int| x0 <= a <= x1 && #[trigger] self.crate_in(r, a, y);
            assert(self.across_tile(m, a, y, side));
            self.lemma_stuck_unsolved(c, r, a, y);
        } else {
            let (y0, y1, side) = choose|y0: int, y1: int, side: int|
                (side == -1 || side == 1) && self.dead_corner(m, x, y0) && #[trigger] self.sealed_down(m, x, y0, y1, side) && y0 <= y
                    <= y1;
            assert(self.crate_in_col_run(c, x, y0, y1));
            self.lemma_col_run_keeps(m, c, acts, x, y0, y1, side);
            let b = choose|b: int| y0 <= b <= y1 && #[trigger] self.crate_in(r, x, b);
            assert(self.down_tile(m, x, b, side));
            self.lemma_stuck_unsolved(c, r, x, b);
        }
    }

    /// Frozen pairs are sound: when there are as many crates as goal tiles
    /// and the agent stands on a free tile, a frozen pair means that no
    /// sequence of actions ever solves the level.
    pub proof fn lemma_frozen_pair_unsolvable(&self, c: Config, acts: Seq<Action>, x: int, y: int)
        requires
            self.wf(),
            c.1.finite(),
            c.1.subset_of(vstd::set_lib::set_int_range(0, self.size())),
            c.1.len() == self.goal_set().len(),
            self.frozen_pair_at(c, x, y),
            self.agent_free(c),
            self.run(c, acts) is Some,
        ensures
            !self.solved(self.run(c, acts).unwrap()),
    {
        let r = self.run(c, acts).unwrap();
        self.lemma_run_count(c, acts);
        let (ex, ey) = if self.crate_in(c, x + 1, y) && ((self.wall_at(x, y - 1) && self.wall_at(x + 1, y - 1)) || (self.wall_at(
            x,
            y + 1,
        ) && self.wall_at(x + 1, y + 1))) && !(self.goal_at(x, y) && self.goal_at(x + 1, y)) {
            (1int, 0int)
        } else {
            (0int, 1int)
        };
        let (fx, fy) = if ex == 1 {
            if self.wall_at(x, y - 1) && self.wall_at(x + 1, y - 1) {
                (0int, -1int)
            } else {
                (0int, 1int)
            }
        } else {
            if self.wall_at(x - 1, y) && self.wall_at(x - 1, y + 1) {
                (-1int, 0int)
            } else {
                (1int, 0int)
            }
        };
        assert(self.locked_pair(c, x, y, ex, ey, fx, fy));
        self.lemma_locked_run(c, acts, x, y, ex, ey, fx, fy);
        if !self.goal_at(x, y) {
            self.lemma_stuck_unsolved(c, r, x, y);
        } else {
            self.lemma_stuck_unsolved(c, r, x + ex, y + ey);
        }
    }

    /// With every other goal covered, covering goal `k` makes a state solved
    /// and uncovering it makes the state unsolved.
    pub proof fn lemma_goal_flip(&self, c: Config, k: int)
        requires
            self.wf(),
            0 <= k < self.goal_list().len(),
            forall|j: int| 0 <= j < self.goal_list().len() && j != k ==> #[trigger] self.crate_in(
                c,
                self.goal_list()[j].0 as int,
                self.goal_list()[j].1 as int,
            ),
        ensures
            ({
                let g = self.goal_list()[k];
                let i = self.index(g.0 as int, g.1 as int);
                &&& self.solved((c.0, c.1.insert(i)))
                &&& !self.solved((c.0, c.1.remove(i)))
            }),
    {
        let g = self.goal_list()[k];
        let i = self.index(g.0 as int, g.1 as int);
        let up = (c.0, c.1.insert(i));
        assert forall|j: int| 0 <= j < self.goal_list().len() implies #[trigger] self.crate_in(
            up,
            self.goal_list()[j].0 as int,
            self.goal_list()[j].1 as int,
        ) by {
            if j != k {
                assert(self.crate_in(c, self.goal_list()[j].0 as int, self.goal_list()[j].1 as int));
            }
        }
        assert(!self.crate_in((c.0, c.1.remove(i)), g.0 as int, g.1 as int));
    }

    /// Two states of this board with the same agent tile and the same
    /// occupied tiles are identical, bit for bit, so they also hash alike.
    pub proof fn lemma_state_eq_invariance(&self, a: &BoardState, b: &BoardState)
        requires
            self.wf(),
            self.state_wf(a),
            self.state_wf(b),
            a@ == b@,
        ensures
            a.player_pos() == b.player_pos(),
            a.bits() == b.bits(),
    {
        assert forall|i: int| 0 <= i < self.size() implies a.crates@[i] == b.crates@[i] by {
            assert(a.occupied().contains(i) == b.occupied().contains(i));
        }
        assert(a.crates@ =~= b.crates@);
    }

    proof fn lemma_nearest_none_when_solved(&self, c: Config, x: int, y: int, n: int)
        requires
            self.solved(c),
            n <= self.goal_list().len(),
        ensures
            self.nearest(c, x, y, n) is None,
        decreases n,
    {
        if n > 0 {
            let g = self.goal_list()[n - 1];
            assert(self.crate_in(c, g.0 as int, g.1 as int));
            self.lemma_nearest_none_when_solved(c, x, y, n - 1);
        }
    }

    proof fn lemma_cost_sum_zero_when_solved(&self, c: Config, cs: Seq<(int, int)>)
        requires
            self.solved(c),
        ensures
            self.cost_sum(c, cs) == 0,
        decreases cs.len(),
    {
        if cs.len() > 0 {
            self.lemma_cost_sum_zero_when_solved(c, cs.drop_last());
            self.lemma_nearest_none_when_solved(c, cs.last().0, cs.last().1, self.goal_list().len() as int);
        }
    }

    /// The heuristic is zero on a solved state, where no push remains.
    pub proof fn lemma_heuristic_zero_when_solved(&self, c: Config)
        requires
            self.solved(c),
        ensures
            self.heuristic_value(c) == 0,
    {
        self.lemma_cost_sum_zero_when_solved(c, self.crate_list(c));
    }

    /// Two walls meet at `(x, y)` in an L.
    pub open spec fn corner_at(&self, x: int, y: int) -> bool {
        ||| self.wall_at(x, y - 1) && self.wall_at(x + 1, y)
        ||| self.wall_at(x + 1, y) && self.wall_at(x, y + 1)
        ||| self.wall_at(x, y + 1) && self.wall_at(x - 1, y)
        ||| self.wall_at(x - 1, y) && self.wall_at(x, y - 1)
    }

    /// Tile `(x, y)` may belong to a sealed run along the wall on row
    /// `y + side`: it is inside, holds no goal, and that wall is there.
    pub open spec fn across_tile(&self, inside: Seq<bool>, x: int, y: int, side: int) -> bool {
        &&& self.in_grid(x, y)
        &&& inside[self.index(x, y)]
        &&& !self.goal_at(x, y)
        &&& self.wall_at(x, y + side)
    }

    /// Tile `(x, y)` may belong to a sealed run along the wall on column
    /// `x + side`.
    pub open spec fn down_tile(&self, inside: Seq<bool>, x: int, y: int, side: int) -> bool {
        &&& self.in_grid(x, y)
        &&& inside[self.index(x, y)]
        &&& !self.goal_at(x, y)
        &&& self.wall_at(x + side, y)
    }

    /// Tiles `(x0, y) ..= (x1, y)` run along a wall on one side (`-1` above,
    /// `1` below), and a wall closes the run on the right.
    pub open spec fn sealed_across(&self, inside: Seq<bool>, x0: int, x1: int, y: int, side: int) -> bool {
        &&& x0 <= x1
        &&& forall|x: int| x0 <= x <= x1 ==> #[trigger] self.across_tile(inside, x, y, side)
        &&& self.wall_at(x1 + 1, y)
    }

    /// Tiles `(x, y0) ..= (x, y1)` run along a wall on one side (`-1` left,
    /// `1` right), and a wall closes the run below.
    pub open spec fn sealed_down(&self, inside: Seq<bool>, x: int, y0: int, y1: int, side: int) -> bool {
        &&& y0 <= y1
        &&& forall|y: int| y0 <= y <= y1 ==> #[trigger] self.down_tile(inside, x, y, side)
        &&& self.wall_at(x, y1 + 1)
    }

    /// `(x, y)` is an inside corner without a goal.
    pub open spec fn dead_corner(&self, inside: Seq<bool>, x: int, y: int) -> bool {
        self.in_grid(x, y) && inside[self.index(x, y)] && self.corner_at(x, y) && !self.goal_at(x, y)
    }

    /// `(a, b)` is an inside corner without a goal, or lies on a sealed run
    /// that starts at one.
    pub open spec fn dead_reason(&self, inside: Seq<bool>, a: int, b: int) -> bool {
        ||| self.dead_corner(inside, a, b)
        ||| exists|x0: int, x1: int, side: int|
            (side == -1 || side == 1) && self.dead_corner(inside, x0, b) && #[trigger] self.sealed_across(inside, x0, x1, b, side)
                && x0 <= a <= x1
        ||| exists|y0: int, y1: int, side: int|
            (side == -1 || side == 1) && self.dead_corner(inside, a, y0) && #[trigger] self.sealed_down(inside, a, y0, y1, side)
                && y0 <= b <= y1
    }

    /// Tile `(a, b)` is inside and holds no goal.
    pub open spec fn may_die(&self, inside: Seq<bool>, a: int, b: int) -> bool {
        inside[self.index(a, b)] && !self.goal_at(a, b)
    }

    /// Is `(x, y)` an inside tile of the mask `inside`?
    fn inside_at(&self, inside: &Vec<bool>, x: i64, y: i64) -> (r: bool)
        requires
            self.wf(),
            inside@.len() == self.size(),
        ensures
            r == (self.in_grid(x as int, y as int) && inside@[self.index(x as int, y as int)]),
    {
        if self.in_bounds(x, y) {
            inside[self.tile(x as u32, y as u32)]
        } else {
            false
        }
    }

    fn is_corner(&self, x: i64, y: i64) -> (r: bool)
        requires
            self.wf(),
            self.in_grid(x as int, y as int),
        ensures
            r == self.corner_at(x as int, y as int),
    {
        self.is_wall(x, y - 1) && self.is_wall(x + 1, y) || self.is_wall(x + 1, y) && self.is_wall(x, y + 1)
            || self.is_wall(x, y + 1) && self.is_wall(x - 1, y) || self.is_wall(x - 1, y) && self.is_wall(x, y - 1)
    }

    /// The right end of a sealed run starting at `(x, y)` along the wall on
    /// side `side`, if there is one.
    fn scan_across(&self, inside: &Vec<bool>, x: u32, y: u32, side: i64) -> (r: Option<u32>)
        requires
            self.wf(),
            inside@.len() == self.size(),
            self.in_grid(x as int, y as int),
            side == -1 || side == 1,
            forall|a: int, b: int| self.in_grid(a, b) && #[trigger] inside@[self.index(a, b)] ==> !self.wall_at(a, b),
        ensures
            match r {
                Some(x1) => self.sealed_across(inside@, x as int, x1 as int, y as int, side as int) && x1 < self.width(),
                None => true,
            },
            forall|x1: int| #[trigger] self.sealed_across(inside@, x as int, x1, y as int, side as int) ==> r == Some(
                x1 as u32,
            ),
    {
        let mut x1 = x;
        loop
            invariant
                self.wf(),
                inside@.len() == self.size(),
                self.in_grid(x1 as int, y as int),
                side == -1 || side == 1,
                forall|a: int, b: int| self.in_grid(a, b) && #[trigger] inside@[self.index(a, b)] ==> !self.wall_at(a, b),
                x <= x1,
                forall|t: int| x <= t < x1 ==> #[trigger] self.across_tile(inside@, t, y as int, side as int),
                forall|t: int| x <= t < x1 ==> !#[trigger] self.wall_at(t + 1, y as int),
            decreases self.width() - x1,
        {
            if !self.inside_at(inside, x1 as i64, y as i64) || self.is_goal(x1 as i64, y as i64) || !self.is_wall(
                x1 as i64,
                y as i64 + side,
            ) {
                proof {
                    assert forall|e: int| #[trigger] self.sealed_across(inside@, x as int, e, y as int, side as int) implies false by {
                        if e >= x1 {
                            assert(self.across_tile(inside@, x1 as int, y as int, side as int));
                        } else {
                            assert(!self.wall_at(e + 1, y as int));
                        }
                    }
                }
                return None;
            }
            assert(self.across_tile(inside@, x1 as int, y as int, side as int));
            if self.is_wall(x1 as i64 + 1, y as i64) {
                proof {
                    assert forall|e: int| #[trigger] self.sealed_across(inside@, x as int, e, y as int, side as int) implies e
                        == x1 by {
                        if e > x1 {
                            assert(self.across_tile(inside@, x1 + 1, y as int, side as int));
                        } else if e < x1 {
                            assert(!self.wall_at(e + 1, y as int));
                        }
                    }
                }
                return Some(x1);
            }
            x1 += 1;
        }
    }

    /// The lower end of a sealed run starting at `(x, y)` along the wall on
    /// side `side`, if there is one.
    fn scan_down(&self, inside: &Vec<bool>, x: u32, y: u32, side: i64) -> (r: Option<u32>)
        requires
            self.wf(),
            inside@.len() == self.size(),
            self.in_grid(x as int, y as int),
            side == -1 || side == 1,
            forall|a: int, b: int| self.in_grid(a, b) && #[trigger] inside@[self.index(a, b)] ==> !self.wall_at(a, b),
        ensures
            match r {
                Some(y1) => self.sealed_down(inside@, x as int, y as int, y1 as int, side as int) && y1 < self.height(),
                None => true,
            },
            forall|y1: int| #[trigger] self.sealed_down(inside@, x as int, y as int, y1, side as int) ==> r == Some(
                y1 as u32,
            ),
    {
        let mut y1 = y;
        loop
            invariant
                self.wf(),
                inside@.len() == self.size(),
                self.in_grid(x as int, y1 as int),
                side == -1 || side == 1,
                forall|a: int, b: int| self.in_grid(a, b) && #[trigger] inside@[self.index(a, b)] ==> !self.wall_at(a, b),
                y <= y1,
                forall|t: int| y <= t < y1 ==> #[trigger] self.down_tile(inside@, x as int, t, side as int),
                forall|t: int| y <= t < y1 ==> !#[trigger] self.wall_at(x as int, t + 1),
            decreases self.height() - y1,
        {
            if !self.inside_at(inside, x as i64, y1 as i64) || self.is_goal(x as i64, y1 as i64) || !self.is_wall(
                x as i64 + side,
                y1 as i64,
            ) {
                proof {
                    assert forall|e: int| #[trigger] self.sealed_down(inside@, x as int, y as int, e, side as int) implies false by {
                        if e >= y1 {
                            assert(self.down_tile(inside@, x as int, y1 as int, side as int));
                        } else {
                            assert(!self.wall_at(x as int, e + 1));
                        }
                    }
                }
                return None;
            }
            assert(self.down_tile(inside@, x as int, y1 as int, side as int));
            if self.is_wall(x as i64, y1 as i64 + 1) {
                proof {
                    assert forall|e: int| #[trigger] self.sealed_down(inside@, x as int, y as int, e, side as int) implies e
                        == y1 by {
                        if e > y1 {
                            assert(self.down_tile(inside@, x as int, y1 + 1, side as int));
                        } else if e < y1 {
                            assert(!self.wall_at(x as int, e + 1));
                        }
                    }
                }
                return Some(y1);
            }
            y1 += 1;
        }
    }

    /// Tiles `(x0, y) ..= (x1, y)` are marked in `dead`.
    spec fn marked_across(&self, dead: Seq<bool>, x0: int, x1: int, y: int) -> bool {
        forall|a: int| x0 <= a <= x1 ==> #[trigger] dead[self.index(a, y)]
    }

    /// Tiles `(x, y0) ..= (x, y1)` are marked in `dead`.
    spec fn marked_down(&self, dead: Seq<bool>, x: int, y0: int, y1: int) -> bool {
        forall|b: int| y0 <= b <= y1 ==> #[trigger] dead[self.index(x, b)]
    }

    proof fn lemma_marked_grow(&self, d: Seq<bool>, d2: Seq<bool>, x0: int, x1: int, y0: int, y1: int)
        requires
            self.wf(),
            forall|i: int| 0 <= i < self.size() && #[trigger] d[i] ==> d2[i],
            0 <= x0,
            x1 < self.width(),
            0 <= y0,
            y1 < self.height(),
        ensures
            y0 == y1 && self.marked_across(d, x0, x1, y0) ==> self.marked_across(d2, x0, x1, y0),
            x0 == x1 && self.marked_down(d, x0, y0, y1) ==> self.marked_down(d2, x0, y0, y1),
    {
        if y0 == y1 && self.marked_across(d, x0, x1, y0) {
            assert forall|a: int| x0 <= a <= x1 implies #[trigger] d2[self.index(a, y0)] by {
                self.lemma_index_bound(a, y0);
                assert(d[self.index(a, y0)]);
            }
        }
        if x0 == x1 && self.marked_down(d, x0, y0, y1) {
            assert forall|b: int| y0 <= b <= y1 implies #[trigger] d2[self.index(x0, b)] by {
                self.lemma_index_bound(x0, b);
                assert(d[self.index(x0, b)]);
            }
        }
    }

    /// Every sealed run starting at `(x, y)` is marked in `dead`.
    spec fn runs_marked(&self, inside: Seq<bool>, dead: Seq<bool>, x: int, y: int) -> bool {
        &&& forall|x1: int, side: int| (side == -1 || side == 1) && #[trigger] self.sealed_across(inside, x, x1, y, side)
            ==> self.marked_across(dead, x, x1, y)
        &&& forall|y1: int, side: int| (side == -1 || side == 1) && #[trigger] self.sealed_down(inside, x, y, y1, side)
            ==> self.marked_down(dead, x, y, y1)
    }

    proof fn lemma_runs_grow(&self, inside: Seq<bool>, d: Seq<bool>, d2: Seq<bool>, x: int, y: int)
        requires
            self.wf(),
            forall|i: int| 0 <= i < self.size() && #[trigger] d[i] ==> d2[i],
            self.in_grid(x, y),
            self.runs_marked(inside, d, x, y),
        ensures
            self.runs_marked(inside, d2, x, y),
    {
        assert forall|x1: int, side: int| (side == -1 || side == 1) && #[trigger] self.sealed_across(inside, x, x1, y, side)
            implies self.marked_across(d2, x, x1, y) by {
            assert(self.across_tile(inside, x1, y, side));
            self.lemma_marked_grow(d, d2, x, x1, y, y);
        }
        assert forall|y1: int, side: int| (side == -1 || side == 1) && #[trigger] self.sealed_down(inside, x, y, y1, side)
            implies self.marked_down(d2, x, y, y1) by {
            assert(self.down_tile(inside, x, y1, side));
            self.lemma_marked_grow(d, d2, x, x, y, y1);
        }
    }

    /// Marks `(x, y)`, an inside corner without a goal, dead, with every
    /// sealed run that starts there.
    #[verifier::spinoff_prover]
    fn mark_from_corner(&self, dead: Vec<bool>, inside: &Vec<bool>, x: u32, y: u32) -> (r: Vec<bool>)
        requires
            self.wf(),
            inside@.len() == self.size(),
            dead@.len() == self.size(),
            self.in_grid(x as int, y as int),
            inside@[self.index(x as int, y as int)],
            !self.goal_at(x as int, y as int),
            self.corner_at(x as int, y as int),
            forall|a: int, b: int| self.in_grid(a, b) && #[trigger] inside@[self.index(a, b)] ==> !self.wall_at(a, b),
        ensures
            r@.len() == self.size(),
            forall|i: int| 0 <= i < self.size() && #[trigger] dead@[i] ==> r@[i],
            r@[self.index(x as int, y as int)],
            self.runs_marked(inside@, r@, x as int, y as int),
            forall|a: int, b: int| self.in_grid(a, b) && #[trigger] r@[self.index(a, b)] ==> dead@[
                self.index(a, b)] || (inside@[self.index(a, b)] && !self.goal_at(a, b)),
            forall|a: int, b: int| self.in_grid(a, b) && #[trigger] r@[self.index(a, b)] ==> dead@[
                self.index(a, b)] || self.dead_reason(inside@, a, b),
    {
        let ghost d0 = dead@;
        let mut dead = dead;
        proof {
            self.lemma_index_bound(x as int, y as int);
        }
        self.mark_dead(&mut dead, inside, x, y, x, y);
        proof {
            assert forall|a: int, b: int| self.in_grid(a, b) && #[trigger] dead@[self.index(a, b)] implies d0[self.index(a, b)]
                || self.dead_reason(inside@, a, b) by {
                if !d0[self.index(a, b)] {
                    assert(x <= a <= x && y <= b <= y);
                }
            }
        }
        let mut side: i64 = -1;
        while side <= 1
            invariant
                self.wf(),
                inside@.len() == self.size(),
                dead@.len() == self.size(),
                self.in_grid(x as int, y as int),
                side == -1 || side == 1 || side == 3,
                forall|a: int, b: int| self.in_grid(a, b) && #[trigger] inside@[self.index(a, b)] ==> !self.wall_at(a, b),
                forall|i: int| 0 <= i < self.size() && #[trigger] d0[i] ==> dead@[i],
                dead@[self.index(x as int, y as int)],
                self.dead_corner(inside@, x as int, y as int),
                forall|a: int, b: int| self.in_grid(a, b) && #[trigger] dead@[self.index(a, b)] ==> d0[self.index(a, b)]
                    || self.dead_reason(inside@, a, b),
                forall|x1: int, sd: int| (sd == -1 || sd == 1) && sd < side && #[trigger] self.sealed_across(
                    inside@,
                    x as int,
                    x1,
                    y as int,
                    sd,
                ) ==> self.marked_across(dead@, x as int, x1, y as int),
                forall|y1: int, sd: int| (sd == -1 || sd == 1) && sd < side && #[trigger] self.sealed_down(
                    inside@,
                    x as int,
                    y as int,
                    y1,
                    sd,
                ) ==> self.marked_down(dead@, x as int, y as int, y1),
                forall|a: int, b: int| self.in_grid(a, b) && #[trigger] dead@[self.index(a, b)] ==> d0[self.index(a, b)]
                    || (inside@[self.index(a, b)] && !self.goal_at(a, b)),
            decreases 3 - side,
        {
            let ghost d_a = dead@;
            let across = self.scan_across(inside, x, y, side);
            if let Some(x1) = across {
                proof {
                    assert forall|a: int, b: int| x <= a <= x1 && y <= b <= y implies #[trigger] self.may_die(inside@, a, b) by {
                        assert(self.across_tile(inside@, a, y as int, side as int));
                    }
                }
                let ghost da = dead@;
                self.mark_dead(&mut dead, inside, x, y, x1, y);
                assert forall|a: int| x <= a <= x1 implies #[trigger] dead@[self.index(a, y as int)] by {
                    assert(x <= a <= x1 && y <= y <= y);
                }
                proof {
                    assert forall|a: int, b: int| self.in_grid(a, b) && #[trigger] dead@[self.index(a, b)] implies d0[self.index(a, b)]
                        || self.dead_reason(inside@, a, b) by {
                        if !da[self.index(a, b)] {
                            assert(x <= a <= x1 && y <= b <= y);
                            assert(self.sealed_across(inside@, x as int, x1 as int, b, side as int));
                        }
                    }
                }
            }
            let ghost d_b = dead@;
            let down = self.scan_down(inside, x, y, side);
            if let Some(y1) = down {
                proof {
                    assert forall|a: int, b: int| x <= a <= x && y <= b <= y1 implies #[trigger] self.may_die(inside@, a, b) by {
                        assert(a == x as int);
                        assert(self.down_tile(inside@, a, b, side as int));
                    }
                }
                let ghost db = dead@;
                self.mark_dead(&mut dead, inside, x, y, x, y1);
                assert forall|b: int| y <= b <= y1 implies #[trigger] dead@[self.index(x as int, b)] by {
                    assert(x <= x <= x && y <= b <= y1);
                }
                proof {
                    assert forall|a: int, b: int| self.in_grid(a, b) && #[trigger] dead@[self.index(a, b)] implies d0[self.index(a, b)]
                        || self.dead_reason(inside@, a, b) by {
                        if !db[self.index(a, b)] {
                            assert(x <= a <= x && y <= b <= y1);
                            assert(self.sealed_down(inside@, a, y as int, y1 as int, side as int));
                        }
                    }
                }
            }
            proof {
                assert forall|x1: int, sd: int| (sd == -1 || sd == 1) && sd < side + 2 && #[trigger] self.sealed_across(
                    inside@,
                    x as int,
                    x1,
                    y as int,
                    sd,
                ) implies self.marked_across(dead@, x as int, x1, y as int) by {
                    assert(self.across_tile(inside@, x1, y as int, sd));
                    if sd < side {
                        self.lemma_marked_grow(d_a, dead@, x as int, x1, y as int, y as int);
                    } else {
                        self.lemma_marked_grow(d_b, dead@, x as int, x1, y as int, y as int);
                    }
                }
                assert forall|y1: int, sd: int| (sd == -1 || sd == 1) && sd < side + 2 && #[trigger] self.sealed_down(
                    inside@,
                    x as int,
                    y as int,
                    y1,
                    sd,
                ) implies self.marked_down(dead@, x as int, y as int, y1) by {
                    assert(self.down_tile(inside@, x as int, y1, sd));
                    if sd < side {
                        self.lemma_marked_grow(d_a, dead@, x as int, x as int, y as int, y1);
                    }
                }
            }
            side += 2;
        }
        dead
    }

    /// Dead tiles: every inside corner without a goal, and every sealed run
    /// that starts at such a corner.
    fn find_dead_tiles(&self, inside: &Vec<bool>) -> (r: Vec<bool>)
        requires
            self.wf(),
            inside@.len() == self.size(),
            forall|a: int, b: int| self.in_grid(a, b) && #[trigger] inside@[self.index(a, b)] ==> !self.wall_at(a, b),
        ensures
            forall|x: int, y: int|
                self.in_grid(x, y) && inside@[self.index(x, y)] && self.corner_at(x, y) && !self.goal_at(x, y)
                    ==> #[trigger] self.runs_marked(inside@, r@, x, y),
            forall|x: int, y: int| self.in_grid(x, y) && #[trigger] r@[self.index(x, y)] ==> self.dead_reason(inside@, x, y),
            forall|x: int, y: int| self.in_grid(x, y) && #[trigger] self.dead_reason(inside@, x, y) ==> r@[self.index(x, y)],
            r@.len() == self.size(),
            forall|x: int, y: int| self.in_grid(x, y) && #[trigger] r@[self.index(x, y)] ==> inside@[self.index(x, y)]
                && !self.goal_at(x, y),
            forall|x: int, y: int|
                self.in_grid(x, y) && inside@[self.index(x, y)] && self.corner_at(x, y) && !self.goal_at(x, y)
                    ==> #[trigger] r@[self.index(x, y)],
    {
        let mut dead = filled(false, self.walls.len());
        let mut y: u32 = 0;
        proof {
            assert forall|a: int, b: int| self.in_grid(a, b) && #[trigger] dead@[self.index(a, b)] implies inside@[self.index(a, b)]
                && !self.goal_at(a, b) by {
                self.lemma_index_bound(a, b);
            }
            assert forall|a: int, b: int| self.in_grid(a, b) && #[trigger] dead@[self.index(a, b)] implies self.dead_reason(inside@, a, b) by {
                self.lemma_index_bound(a, b);
            }
        }
        while (y as usize) < self.height
            invariant
                self.wf(),
                inside@.len() == self.size(),
                dead@.len() == self.size(),
                0 <= y <= self.height(),
                forall|a: int, b: int| self.in_grid(a, b) && #[trigger] dead@[self.index(a, b)] ==> inside@[self.index(a, b)]
                    && !self.goal_at(a, b),
                forall|a: int, b: int|
                    self.in_grid(a, b) && b < y && inside@[self.index(a, b)] && self.corner_at(a, b) && !self.goal_at(a, b)
                        ==> #[trigger] dead@[self.index(a, b)],
                forall|a: int, b: int| self.in_grid(a, b) && #[trigger] inside@[self.index(a, b)] ==> !self.wall_at(a, b),
                forall|a: int, b: int| self.in_grid(a, b) && #[trigger] dead@[self.index(a, b)] ==> self.dead_reason(inside@, a, b),
                forall|a: int, b: int|
                    self.in_grid(a, b) && b < y && inside@[self.index(a, b)] && self.corner_at(a, b) && !self.goal_at(a, b)
                        ==> #[trigger] self.runs_marked(inside@, dead@, a, b),
            decreases self.height() - y,
        {
            let mut x: u32 = 0;
            while (x as usize) < self.width
                invariant
                    self.wf(),
                    inside@.len() == self.size(),
                    dead@.len() == self.size(),
                    0 <= y < self.height(),
                    0 <= x <= self.width(),
                    forall|a: int, b: int| self.in_grid(a, b) && #[trigger] dead@[self.index(a, b)] ==> inside@[self.index(a, b)]
                        && !self.goal_at(a, b),
                    forall|a: int, b: int|
                        self.in_grid(a, b) && (b < y || (b == y && a < x)) && inside@[self.index(a, b)] && self.corner_at(a, b)
                            && !self.goal_at(a, b) ==> #[trigger] dead@[self.index(a, b)],
                    forall|a: int, b: int| self.in_grid(a, b) && #[trigger] inside@[self.index(a, b)] ==> !self.wall_at(a, b),
                    forall|a: int, b: int| self.in_grid(a, b) && #[trigger] dead@[self.index(a, b)] ==> self.dead_reason(inside@, a, b),
                    forall|a: int, b: int|
                        self.in_grid(a, b) && (b < y || (b == y && a < x)) && inside@[self.index(a, b)] && self.corner_at(a, b)
                            && !self.goal_at(a, b) ==> #[trigger] self.runs_marked(inside@, dead@, a, b),
                decreases self.width() - x,
            {
                if self.inside_at(inside, x as i64, y as i64) && self.is_corner(x as i64, y as i64) && !self.is_goal(
                    x as i64,
                    y as i64,
                ) {
                    let ghost before = dead@;
                    dead = self.mark_from_corner(dead, inside, x, y);
                    proof {
                        assert forall|a: int, b: int| self.in_grid(a, b) && #[trigger] dead@[self.index(a, b)] implies inside@[self.index(a, b)]
                            && !self.goal_at(a, b) by {
                            if before[self.index(a, b)] {
                            }
                        }
                        assert forall|a: int, b: int| self.in_grid(a, b) && #[trigger] dead@[self.index(a, b)] implies self.dead_reason(inside@, a, b) by {
                            if before[self.index(a, b)] {
                            }
                        }
                        assert forall|a: int, b: int|
                            self.in_grid(a, b) && (b < y || (b == y && a <= x)) && inside@[self.index(a, b)] && self.corner_at(a, b)
                                && !self.goal_at(a, b) implies #[trigger] dead@[self.index(a, b)] by {
                            self.lemma_index_bound(a, b);
                            if b < y || a < x {
                                assert(before[self.index(a, b)]);
                            } else {
                                assert(a == x && b == y);
                            }
                        }
                        assert forall|a: int, b: int|
                            self.in_grid(a, b) && (b < y || (b == y && a <= x)) && inside@[self.index(a, b)] && self.corner_at(a, b)
                                && !self.goal_at(a, b) implies #[trigger] self.runs_marked(inside@, dead@, a, b) by {
                            if b < y || a < x {
                                self.lemma_runs_grow(inside@, before, dead@, a, b);
                            } else {
                                assert(a == x && b == y);
                            }
                        }
                    }
                }
                x += 1;
            }
            y += 1;
        }
        proof {
            assert forall|x: int, y: int| self.in_grid(x, y) && #[trigger] self.dead_reason(inside@, x, y) implies dead@[self.index(x, y)] by {
                if self.dead_corner(inside@, x, y) {
                } else if exists|x0: int, x1: int, side: int|
                    (side == -1 || side == 1) && self.dead_corner(inside@, x0, y) && #[trigger] self.sealed_across(inside@, x0, x1, y, side)
                        && x0 <= x <= x1 {
                    let (x0, x1, side) = choose|x0: int, x1: int, side: int|
                        (side == -1 || side == 1) && self.dead_corner(inside@, x0, y) && #[trigger] self.sealed_across(inside@, x0, x1, y, side)
                            && x0 <= x <= x1;
                    assert(self.runs_marked(inside@, dead@, x0, y));
                    assert(self.marked_across(dead@, x0, x1, y));
                } else {
                    let (y0, y1, side) = choose|y0: int, y1: int, side: int|
                        (side == -1 || side == 1) && self.dead_corner(inside@, x, y0) && #[trigger] self.sealed_down(inside@, x, y0, y1, side)
                            && y0 <= y <= y1;
                    assert(self.runs_marked(inside@, dead@, x, y0));
                    assert(self.marked_down(dead@, x, y0, y1));
                }
            }
        }
        dead
    }

    /// Marks the straight run from `(x0, y0)` to `(x1, y1)` dead.
    fn mark_dead(&self, dead: &mut Vec<bool>, inside: &Vec<bool>, x0: u32, y0: u32, x1: u32, y1: u32)
        requires
            self.wf(),
            inside@.len() == self.size(),
            old(dead)@.len() == self.size(),
            x0 == x1 || y0 == y1,
            x0 <= x1 < self.width(),
            y0 <= y1 < self.height(),
            forall|a: int, b: int| x0 <= a <= x1 && y0 <= b <= y1 ==> #[trigger] self.may_die(inside@, a, b),
        ensures
            final(dead)@.len() == self.size(),
            forall|i: int| 0 <= i < self.size() && #[trigger] old(dead)@[i] ==> final(dead)@[i],
            forall|a: int, b: int| x0 <= a <= x1 && y0 <= b <= y1 ==> #[trigger] final(dead)@[self.index(a, b)],
            forall|a: int, b: int| self.in_grid(a, b) && #[trigger] final(dead)@[self.index(a, b)] ==> old(dead)@[
                self.index(a, b)] || (inside@[self.index(a, b)] && !self.goal_at(a, b)),
            forall|a: int, b: int| self.in_grid(a, b) && #[trigger] final(dead)@[self.index(a, b)] ==> old(dead)@[
                self.index(a, b)] || (x0 <= a <= x1 && y0 <= b <= y1),
    {
        let ghost d0 = dead@;
        let mut x = x0;
        let mut y = y0;
        loop
            invariant
                self.wf(),
                inside@.len() == self.size(),
                dead@.len() == self.size(),
                x0 == x1 || y0 == y1,
                x0 <= x <= x1 < self.width(),
                y0 <= y <= y1 < self.height(),
                x0 == x1 ==> x == x0,
                y0 == y1 ==> y == y0,
                forall|a: int, b: int| x0 <= a <= x1 && y0 <= b <= y1 ==> #[trigger] self.may_die(inside@, a, b),
                forall|i: int| 0 <= i < self.size() && #[trigger] d0[i] ==> dead@[i],
                forall|a: int, b: int| x0 <= a < x && y0 <= b <= y1 && y0 == y1 ==> #[trigger] dead@[self.index(a, b)],
                forall|a: int, b: int| x0 <= a <= x1 && y0 <= b < y && x0 == x1 ==> #[trigger] dead@[self.index(a, b)],
                forall|a: int, b: int| self.in_grid(a, b) && #[trigger] dead@[self.index(a, b)] ==> d0[self.index(a, b)]
                    || (inside@[self.index(a, b)] && !self.goal_at(a, b)),
                forall|a: int, b: int| self.in_grid(a, b) && #[trigger] dead@[self.index(a, b)] ==> d0[self.index(a, b)]
                    || (x0 <= a <= x1 && y0 <= b <= y1),
            ensures
                dead@.len() == self.size(),
                forall|i: int| 0 <= i < self.size() && #[trigger] d0[i] ==> dead@[i],
                forall|a: int, b: int| x0 <= a <= x1 && y0 <= b <= y1 ==> #[trigger] dead@[self.index(a, b)],
                forall|a: int, b: int| self.in_grid(a, b) && #[trigger] dead@[self.index(a, b)] ==> d0[self.index(a, b)]
                    || (inside@[self.index(a, b)] && !self.goal_at(a, b)),
                forall|a: int, b: int| self.in_grid(a, b) && #[trigger] dead@[self.index(a, b)] ==> d0[self.index(a, b)]
                    || (x0 <= a <= x1 && y0 <= b <= y1),
            decreases x1 - x + y1 - y,
        {
            let t = self.tile(x, y);
            let ghost before = dead@;
            dead.set(t, true);
            proof {
                assert forall|a: int, b: int| self.in_grid(a, b) && #[trigger] dead@[self.index(a, b)] implies d0[self.index(a, b)]
                    || (inside@[self.index(a, b)] && !self.goal_at(a, b)) by {
                    self.lemma_index_bound(a, b);
                    if self.index(a, b) == t {
                        self.lemma_index_inj(a, b, x as int, y as int);
                        assert(self.may_die(inside@, a, b));
                    } else {
                        assert(before[self.index(a, b)]);
                    }
                }
                assert forall|a: int, b: int| self.in_grid(a, b) && #[trigger] dead@[self.index(a, b)] implies d0[self.index(a, b)]
                    || (x0 <= a <= x1 && y0 <= b <= y1) by {
                    self.lemma_index_bound(a, b);
                    if self.index(a, b) == t {
                        self.lemma_index_inj(a, b, x as int, y as int);
                    } else {
                        assert(before[self.index(a, b)]);
                    }
                }
                assert forall|a: int, b: int| x0 <= a <= x && y0 <= b <= y1 && y0 == y1 implies #[trigger] dead@[self.index(a, b)] by {
                    self.lemma_index_bound(a, b);
                    if a < x {
                        assert(before[self.index(a, b)]);
                    }
                }
                assert forall|a: int, b: int| x0 <= a <= x1 && y0 <= b <= y && x0 == x1 implies #[trigger] dead@[self.index(a, b)] by {
                    self.lemma_index_bound(a, b);
                    if b < y {
                        assert(before[self.index(a, b)]);
                    }
                }
            }
            if x == x1 && y == y1 {
                break;
            }
            if x < x1 {
                x += 1;
            } else {
                y += 1;
            }
        }
    }

    /// A crate could stand on `(x, y)` without the level being lost: it is
    /// neither a wall nor dead.
    pub open spec fn passable(&self, x: int, y: int) -> bool {
        !self.wall_at(x, y) && !self.dead_at(x, y)
    }

    /// Appends the neighbour of `(x, y)` in direction `a`, with distance
    /// `d`, if it is on the grid.
    fn enqueue_at(&self, queue: &mut Vec<(u32, u32, u32)>, x: u32, y: u32, a: Action, d: u32)
        requires
            self.wf(),
            self.in_grid(x as int, y as int),
        ensures
            old(queue)@.len() <= final(queue)@.len() <= old(queue)@.len() + 1,
            forall|q: int| 0 <= q < old(queue)@.len() ==> #[trigger] final(queue)@[q] == old(queue)@[q],
            forall|q: int| old(queue)@.len() <= q < final(queue)@.len() ==> self.in_grid(
                #[trigger] final(queue)@[q].0 as int,
                final(queue)@[q].1 as int,
            ) && final(queue)@[q].2 == d,
            if self.in_grid(x + delta(a).0, y + delta(a).1) {
                final(queue)@ == old(queue)@.push(((x + delta(a).0) as u32, (y + delta(a).1) as u32, d))
            } else {
                final(queue)@ == old(queue)@
            },
    {
        let (dx, dy) = offset(a);
        let nx = x as i64 + dx;
        let ny = y as i64 + dy;
        if self.in_bounds(nx, ny) {
            queue.push((nx as u32, ny as u32, d));
        }
    }

    /// Some queue entry at or after `head` is tile `(x, y)` with a distance
    /// of at most `bound`.
    spec fn queued(&self, queue: Seq<(u32, u32, u32)>, head: int, x: int, y: int, bound: int) -> bool {
        exists|q: int|
            head <= q < queue.len() && (#[trigger] queue[q]).0 as int == x && queue[q].1 as int == y && queue[q].2 <= bound
    }

    /// The passable neighbour in direction `a` of a tile with a distance has
    /// a distance at most one larger, or waits in the queue with one.
    spec fn dist_step_ok(&self, dists: Seq<Option<u32>>, queue: Seq<(u32, u32, u32)>, head: int, x: int, y: int, a: Action) -> bool {
        let nx = x + delta(a).0;
        let ny = y + delta(a).1;
        let d = dists[self.index(x, y)].unwrap() as int;
        self.in_grid(x, y) && dists[self.index(x, y)] is Some && self.passable(nx, ny) ==> (dists[self.index(nx, ny)] is Some
            && dists[self.index(nx, ny)].unwrap() <= d + 1) || self.queued(queue, head, nx, ny, d + 1)
    }

    #[verifier::opaque]
    spec fn dist_closed(&self, dists: Seq<Option<u32>>, queue: Seq<(u32, u32, u32)>, head: int) -> bool {
        forall|x: int, y: int, a: Action| #[trigger] self.dist_step_ok(dists, queue, head, x, y, a)
    }

    proof fn lemma_dist_skip(&self, dists: Seq<Option<u32>>, queue: Seq<(u32, u32, u32)>, head: int)
        requires
            self.wf(),
            dists.len() == self.size(),
            self.dist_closed(dists, queue, head),
            0 <= head < queue.len(),
            self.in_grid(queue[head].0 as int, queue[head].1 as int),
            forall|p: int, q: int| head <= p <= q < queue.len() ==> #[trigger] queue[p].2 <= #[trigger] queue[q].2,
            forall|i: int| 0 <= i < self.size() && (#[trigger] dists[i]) is Some ==> dists[i].unwrap() <= queue[head].2,
            dists[self.index(queue[head].0 as int, queue[head].1 as int)] is Some || !self.passable(
                queue[head].0 as int,
                queue[head].1 as int,
            ),
        ensures
            self.dist_closed(dists, queue, head + 1),
    {
        reveal(Board::dist_closed);
        assert forall|x: int, y: int, a: Action| #[trigger] self.dist_step_ok(dists, queue, head + 1, x, y, a) by {
            assert(self.dist_step_ok(dists, queue, head, x, y, a));
            let nx = x + delta(a).0;
            let ny = y + delta(a).1;
            if self.in_grid(x, y) && dists[self.index(x, y)] is Some && self.passable(nx, ny) {
                let d = dists[self.index(x, y)].unwrap() as int;
                if !(dists[self.index(nx, ny)] is Some && dists[self.index(nx, ny)].unwrap() <= d + 1) {
                    let q = choose|q: int|
                        head <= q < queue.len() && (#[trigger] queue[q]).0 as int == nx && queue[q].1 as int == ny && queue[q].2
                            <= d + 1;
                    if q == head {
                        self.lemma_index_bound(nx, ny);
                        assert(queue[head].2 <= queue[q].2);
                    } else {
                        assert(head + 1 <= q);
                    }
                }
            }
        }
    }

    proof fn lemma_dist_visit(
        &self,
        dists: Seq<Option<u32>>,
        queue: Seq<(u32, u32, u32)>,
        head: int,
        queue2: Seq<(u32, u32, u32)>,
    )
        requires
            self.wf(),
            dists.len() == self.size(),
            self.dist_closed(dists, queue, head),
            0 <= head < queue.len(),
            self.in_grid(queue[head].0 as int, queue[head].1 as int),
            dists[self.index(queue[head].0 as int, queue[head].1 as int)] is None,
            queue.len() <= queue2.len(),
            forall|q: int| 0 <= q < queue.len() ==> #[trigger] queue2[q] == queue[q],
            forall|a: Action| self.in_grid(
                #[trigger] (queue[head].0 + delta(a).0),
                queue[head].1 + delta(a).1,
            ) ==> self.queued(
                queue2,
                queue.len() as int,
                queue[head].0 + delta(a).0,
                queue[head].1 + delta(a).1,
                queue[head].2 + 1,
            ),
        ensures
            self.dist_closed(
                dists.update(self.index(queue[head].0 as int, queue[head].1 as int), Some(queue[head].2)),
                queue2,
                head + 1,
            ),
    {
        reveal(Board::dist_closed);
        let ex = queue[head].0 as int;
        let ey = queue[head].1 as int;
        let e = queue[head].2;
        let t = self.index(ex, ey);
        self.lemma_index_bound(ex, ey);
        let dists2 = dists.update(t, Some(e));
        assert forall|x: int, y: int, a: Action| #[trigger] self.dist_step_ok(dists2, queue2, head + 1, x, y, a) by {
            let nx = x + delta(a).0;
            let ny = y + delta(a).1;
            if self.in_grid(x, y) && dists2[self.index(x, y)] is Some && self.passable(nx, ny) {
                self.lemma_index_bound(x, y);
                self.lemma_index_bound(nx, ny);
                if self.index(x, y) == t {
                    self.lemma_index_inj(x, y, ex, ey);
                    assert(self.in_grid(ex + delta(a).0, ey + delta(a).1));
                    let q = choose|q: int|
                        queue.len() <= q < queue2.len() && (#[trigger] queue2[q]).0 as int == nx && queue2[q].1 as int == ny
                            && queue2[q].2 <= e + 1;
                    assert(head + 1 <= q);
                } else {
                    assert(dists[self.index(x, y)] is Some);
                    assert(self.dist_step_ok(dists, queue, head, x, y, a));
                    let d = dists[self.index(x, y)].unwrap() as int;
                    if !(dists[self.index(nx, ny)] is Some && dists[self.index(nx, ny)].unwrap() <= d + 1) {
                        let q = choose|q: int|
                            head <= q < queue.len() && (#[trigger] queue[q]).0 as int == nx && queue[q].1 as int == ny
                                && queue[q].2 <= d + 1;
                        if q == head {
                            assert(dists2[self.index(nx, ny)] == Some(e));
                        } else {
                            assert(queue2[q] == queue[q]);
                        }
                    } else {
                        assert(self.index(nx, ny) != t);
                    }
                }
            }
        }
    }

    /// In distance field `dist`, the passable neighbour in direction `a` of
    /// a tile with a distance has a distance at most one larger.
    pub open spec fn step_bounded(&self, dist: Seq<Option<u32>>, x: int, y: int, a: Action) -> bool {
        let nx = x + delta(a).0;
        let ny = y + delta(a).1;
        self.in_grid(x, y) && dist[self.index(x, y)] is Some && self.passable(nx, ny) ==> dist[self.index(nx, ny)] is Some
            && dist[self.index(nx, ny)].unwrap() <= dist[self.index(x, y)].unwrap() + 1
    }

    /// A walk of exactly `d` steps over passable tiles leads from
    /// `(gx, gy)` to `(x, y)`.
    pub open spec fn gwalk(&self, gx: int, gy: int, x: int, y: int, d: int) -> bool {
        exists|acts: Seq<Action>|
            #[trigger] self.passable_walk(gx, gy, acts) && acts.len() == d && Self::walk_end(gx, gy, acts) == (x, y)
    }

    proof fn lemma_pwalk_push(&self, x: int, y: int, acts: Seq<Action>, a: Action)
        requires
            self.passable_walk(x, y, acts),
            self.passable(Self::walk_end(x, y, acts).0 + delta(a).0, Self::walk_end(x, y, acts).1 + delta(a).1),
        ensures
            self.passable_walk(x, y, acts.push(a)),
            Self::walk_end(x, y, acts.push(a)) == (
                Self::walk_end(x, y, acts).0 + delta(a).0,
                Self::walk_end(x, y, acts).1 + delta(a).1,
            ),
        decreases acts.len(),
    {
        if acts.len() > 0 {
            let b = acts[0];
            assert(acts.push(a)[0] == b);
            assert(acts.push(a).drop_first() =~= acts.drop_first().push(a));
            self.lemma_pwalk_push(x + delta(b).0, y + delta(b).1, acts.drop_first(), a);
        } else {
            assert(acts.push(a)[0] == a);
            assert(acts.push(a).drop_first() =~= Seq::<Action>::empty());
            assert(self.passable_walk(x + delta(a).0, y + delta(a).1, Seq::<Action>::empty()));
            assert(Self::walk_end(x + delta(a).0, y + delta(a).1, Seq::<Action>::empty()) == (x + delta(a).0, y + delta(a).1));
        }
    }

    /// In a field where every step between passable tiles keeps a distance,
    /// a passable walk from a tile with a distance ends on one.
    proof fn lemma_field_walk(&self, f: Seq<Option<u32>>, x: int, y: int, acts: Seq<Action>)
        requires
            forall|x1: int, y1: int, a: Action| #[trigger] self.step_bounded(f, x1, y1, a),
            self.in_grid(x, y),
            f[self.index(x, y)] is Some,
            self.passable_walk(x, y, acts),
        ensures
            self.in_grid(Self::walk_end(x, y, acts).0, Self::walk_end(x, y, acts).1),
            f[self.index(Self::walk_end(x, y, acts).0, Self::walk_end(x, y, acts).1)] is Some,
        decreases acts.len(),
    {
        if acts.len() > 0 {
            let a = acts[0];
            let nx = x + delta(a).0;
            let ny = y + delta(a).1;
            assert(self.passable_walk(nx, ny, acts.drop_first()));
            assert(self.step_bounded(f, x, y, a));
            self.lemma_field_walk(f, nx, ny, acts.drop_first());
        }
    }

    /// Push distances to goal `(gx, gy)`: a breadth-first search from the
    /// goal over passable tiles.
    #[verifier::spinoff_prover]
    fn calculate_goal_distance(&self, gx: u32, gy: u32) -> (r: Vec<Option<u32>>)
        requires
            self.wf(),
            self.in_grid(gx as int, gy as int),
        ensures
            r@.len() == self.size(),
            forall|x: int, y: int| self.in_grid(x, y) && (#[trigger] r@[self.index(x, y)]) is Some ==> self.passable(x, y)
                && r@[self.index(x, y)].unwrap() < self.size(),
            self.passable(gx as int, gy as int) ==> r@[self.index(gx as int, gy as int)] == Some(0u32),
            forall|x: int, y: int, a: Action| #[trigger] self.step_bounded(r@, x, y, a),
            forall|x: int, y: int| self.in_grid(x, y) && (#[trigger] r@[self.index(x, y)]) is Some ==> self.gwalk(
                gx as int,
                gy as int,
                x,
                y,
                r@[self.index(x, y)].unwrap() as int,
            ),
            forall|acts: Seq<Action>| #[trigger] self.passable_walk(gx as int, gy as int, acts) ==> r@[self.index(
                Self::walk_end(gx as int, gy as int, acts).0,
                Self::walk_end(gx as int, gy as int, acts).1,
            )] is Some,
    {
        let n = self.walls.len();
        let mut dists: Vec<Option<u32>> = filled(None, n);
        let ghost mut lo: int = 0;
        let ghost mut seen_set: Set<int> = Set::empty();
        let mut queue: Vec<(u32, u32, u32)> = Vec::new();
        queue.push((gx, gy, 0));
        let mut head: usize = 0;
        let ghost gi = self.index(gx as int, gy as int);
        proof {
            vstd::set_lib::lemma_int_range(0, n as int);
            self.lemma_index_bound(gx as int, gy as int);
            assert(dists@[gi] is None);
            assert forall|x: int, y: int| self.in_grid(x, y) && (#[trigger] dists@[self.index(x, y)]) is Some implies self.passable(x, y)
                && dists@[self.index(x, y)].unwrap() < self.size() by {
                self.lemma_index_bound(x, y);
            }
            reveal(Board::dist_closed);
            assert forall|x: int, y: int, a: Action| #[trigger] self.dist_step_ok(dists@, queue@, 0, x, y, a) by {
                if self.in_grid(x, y) {
                    self.lemma_index_bound(x, y);
                }
            }
            assert forall|x: int, y: int| self.in_grid(x, y) && (#[trigger] dists@[self.index(x, y)]) is Some implies self.gwalk(
                gx as int,
                gy as int,
                x,
                y,
                dists@[self.index(x, y)].unwrap() as int,
            ) by {
                self.lemma_index_bound(x, y);
            }
            if self.passable(gx as int, gy as int) {
                assert(self.passable_walk(gx as int, gy as int, Seq::<Action>::empty()));
                assert(Self::walk_end(gx as int, gy as int, Seq::<Action>::empty()) == (gx as int, gy as int));
            }
        }
        while head < queue.len()
            invariant
                self.wf(),
                self.in_grid(gx as int, gy as int),
                gi == self.index(gx as int, gy as int),
                0 <= gi < n,
                n == self.size(),
                dists@.len() == n,
                forall|i: int| #[trigger] seen_set.contains(i) <==> (0 <= i < n && dists@[i] is Some),
                seen_set.finite(),
                seen_set.len() <= n,
                vstd::set_lib::set_int_range(0, n as int).finite(),
                vstd::set_lib::set_int_range(0, n as int).len() == n,
                0 <= head <= queue@.len(),
                forall|q: int| head <= q < queue@.len() ==> self.in_grid(#[trigger] queue@[q].0 as int, queue@[q].1 as int)
                    && queue@[q].2 <= seen_set.len(),
                forall|x: int, y: int| self.in_grid(x, y) && (#[trigger] dists@[self.index(x, y)]) is Some ==> self.passable(x, y)
                    && dists@[self.index(x, y)].unwrap() < n,
                head == 0 ==> queue@.len() == 1 && queue@[0] == (gx, gy, 0u32) && seen_set.len() == 0 && dists@[gi] is None,
                head > 0 && self.passable(gx as int, gy as int) ==> dists@[gi] == Some(0u32),
                self.dist_closed(dists@, queue@, head as int),
                0 <= lo,
                forall|p: int, q: int| head <= p <= q < queue@.len() ==> #[trigger] queue@[p].2 <= #[trigger] queue@[q].2,
                forall|q: int| head <= q < queue@.len() ==> lo <= #[trigger] queue@[q].2 <= lo + 1,
                forall|i: int| 0 <= i < n && (#[trigger] dists@[i]) is Some ==> dists@[i].unwrap() <= lo,
                forall|x: int, y: int| self.in_grid(x, y) && (#[trigger] dists@[self.index(x, y)]) is Some ==> self.gwalk(
                    gx as int,
                    gy as int,
                    x,
                    y,
                    dists@[self.index(x, y)].unwrap() as int,
                ),
                forall|q: int| head <= q < queue@.len() && self.passable(#[trigger] queue@[q].0 as int, queue@[q].1 as int) ==> self.gwalk(
                    gx as int,
                    gy as int,
                    queue@[q].0 as int,
                    queue@[q].1 as int,
                    queue@[q].2 as int,
                ),
            decreases 4 * (n - seen_set.len()) + queue@.len() - head,
        {
            let (x, y, d) = queue[head];
            assert(self.in_grid(queue@[head as int].0 as int, queue@[head as int].1 as int));
            assert(d <= seen_set.len());
            assert(lo <= queue@[head as int].2);
            let ghost h0 = head as int;
            let ghost qs = queue@;
            let ghost lo0 = lo;
            proof {
                lo = d as int;
            }
            head += 1;
            let t = self.tile(x, y);
            if !(dists[t].is_none() && !self.is_wall(x as i64, y as i64) && !self.is_dead_tile(x as i64, y as i64)) {
                proof {
                    self.lemma_dist_skip(dists@, qs, h0);
                    assert forall|q: int| head <= q < queue@.len() implies lo <= #[trigger] queue@[q].2 <= lo + 1 by {
                        assert(qs[h0].2 <= qs[q].2);
                        assert(lo0 <= qs[q].2 <= lo0 + 1);
                    }
                }
            } else {
                let ghost before = dists@;
                proof {
                    assert(!seen_set.contains(t as int));
                    assert(seen_set.insert(t as int).subset_of(vstd::set_lib::set_int_range(0, n as int)));
                    vstd::set_lib::lemma_len_subset(seen_set.insert(t as int), vstd::set_lib::set_int_range(0, n as int));
                }
                dists.set(t, Some(d));
                let ghost old_len = seen_set.len();
                proof {
                    seen_set = seen_set.insert(t as int);
                    assert(seen_set.len() == old_len + 1);
                    let w = self.width();
                    let h = self.height();
                    assert(w * h <= 0xffff * 0xffff) by (nonlinear_arith)
                        requires
                            1 <= w <= 0xffff,
                            1 <= h <= 0xffff,
                    ;
                    assert forall|x2: int, y2: int| self.in_grid(x2, y2) && (#[trigger] dists@[self.index(x2, y2)]) is Some implies self.passable(x2, y2)
                        && dists@[self.index(x2, y2)].unwrap() < n by {
                        self.lemma_index_bound(x2, y2);
                        if self.index(x2, y2) == t {
                            self.lemma_index_inj(x2, y2, x as int, y as int);
                        } else {
                            assert(before[self.index(x2, y2)] is Some);
                        }
                    }
                    if head == 1 {
                        assert(t == gi);
                        assert(d == 0);
                    } else if self.passable(gx as int, gy as int) {
                        assert(before[gi] == Some(0u32));
                        assert(t != gi);
                    }
                }
                let ghost q0 = queue@;
                self.enqueue_at(&mut queue, x, y, Action::Right, d + 1);
                let ghost q1 = queue@;
                self.enqueue_at(&mut queue, x, y, Action::Left, d + 1);
                let ghost q2 = queue@;
                self.enqueue_at(&mut queue, x, y, Action::Down, d + 1);
                let ghost q3 = queue@;
                self.enqueue_at(&mut queue, x, y, Action::Up, d + 1);
                assert(queue@.len() <= q0.len() + 4);
                assert forall|q: int| head <= q < queue@.len() implies self.in_grid(#[trigger] queue@[q].0 as int, queue@[q].1 as int)
                    && queue@[q].2 <= seen_set.len() by {
                    if q < q0.len() {
                        assert(queue@[q] == q3[q]);
                        assert(q3[q] == q2[q]);
                        assert(q2[q] == q1[q]);
                        assert(q1[q] == q0[q]);
                        assert(self.in_grid(q0[q].0 as int, q0[q].1 as int));
                        assert(q0[q].2 <= old_len);
                    } else if q < q1.len() {
                        assert(queue@[q] == q3[q]);
                        assert(q3[q] == q2[q]);
                        assert(q2[q] == q1[q]);
                        assert(self.in_grid(q1[q].0 as int, q1[q].1 as int));
                    } else if q < q2.len() {
                        assert(queue@[q] == q3[q]);
                        assert(q3[q] == q2[q]);
                        assert(self.in_grid(q2[q].0 as int, q2[q].1 as int));
                    } else if q < q3.len() {
                        assert(queue@[q] == q3[q]);
                        assert(self.in_grid(q3[q].0 as int, q3[q].1 as int));
                    } else {
                        assert(self.in_grid(queue@[q].0 as int, queue@[q].1 as int));
                    }
                }
                proof {
                    let xi = x as int;
                    let yi = y as int;
                    assert(qs == q0);
                    assert(q0[h0].0 == x && q0[h0].1 == y && q0[h0].2 == d);
                    assert forall|a: Action| self.in_grid(#[trigger] (xi + delta(a).0), yi + delta(a).1) implies self.queued(
                        queue@,
                        q0.len() as int,
                        xi + delta(a).0,
                        yi + delta(a).1,
                        d + 1,
                    ) by {
                        let nx = xi + delta(a).0;
                        let ny = yi + delta(a).1;
                        match a {
                            Action::Right => {
                                let q = q0.len() as int;
                                assert(queue@[q] == q1[q]);
                                assert(queue@[q].0 as int == nx && queue@[q].1 as int == ny && queue@[q].2 == d + 1);
                            },
                            Action::Left => {
                                let q = q1.len() as int;
                                assert(queue@[q] == q2[q]);
                                assert(queue@[q].0 as int == nx && queue@[q].1 as int == ny && queue@[q].2 == d + 1);
                            },
                            Action::Down => {
                                let q = q2.len() as int;
                                assert(queue@[q] == q3[q]);
                                assert(queue@[q].0 as int == nx && queue@[q].1 as int == ny && queue@[q].2 == d + 1);
                            },
                            Action::Up => {
                                let q = q3.len() as int;
                                assert(queue@[q].0 as int == nx && queue@[q].1 as int == ny && queue@[q].2 == d + 1);
                            },
                        }
                    }
                    assert(forall|q: int| 0 <= q < q0.len() ==> queue@[q] == q0[q]);
                    self.lemma_dist_visit(before, q0, h0, queue@);
                    assert(dists@ == before.update(t as int, Some(d)));
                    assert(self.passable(q0[h0].0 as int, q0[h0].1 as int));
                    assert(self.gwalk(gx as int, gy as int, xi, yi, d as int));
                    let wacts = choose|acts: Seq<Action>|
                        #[trigger] self.passable_walk(gx as int, gy as int, acts) && acts.len() == d as int && Self::walk_end(
                            gx as int,
                            gy as int,
                            acts,
                        ) == (xi, yi);
                    assert forall|x2: int, y2: int| self.in_grid(x2, y2) && (#[trigger] dists@[self.index(x2, y2)]) is Some implies self.gwalk(
                        gx as int,
                        gy as int,
                        x2,
                        y2,
                        dists@[self.index(x2, y2)].unwrap() as int,
                    ) by {
                        self.lemma_index_bound(x2, y2);
                        if self.index(x2, y2) == t {
                            self.lemma_index_inj(x2, y2, xi, yi);
                        } else {
                            assert(before[self.index(x2, y2)] is Some);
                        }
                    }
                    assert forall|q: int| head <= q < queue@.len() && self.passable(#[trigger] queue@[q].0 as int, queue@[q].1 as int)
                        implies self.gwalk(gx as int, gy as int, queue@[q].0 as int, queue@[q].1 as int, queue@[q].2 as int) by {
                        if q < q0.len() {
                            assert(queue@[q] == q0[q]);
                        } else {
                            let a = if q < q1.len() {
                                Action::Right
                            } else if q < q2.len() {
                                Action::Left
                            } else if q < q3.len() {
                                Action::Down
                            } else {
                                Action::Up
                            };
                            if q < q1.len() {
                                assert(queue@[q] == q1[q]);
                                assert(q1 == q0.push(((xi + 1) as u32, yi as u32, (d + 1) as u32)));
                            } else if q < q2.len() {
                                assert(queue@[q] == q2[q]);
                            } else if q < q3.len() {
                                assert(queue@[q] == q3[q]);
                            }
                            assert(queue@[q].0 as int == xi + delta(a).0 && queue@[q].1 as int == yi + delta(a).1 && queue@[q].2 == d + 1);
                            self.lemma_pwalk_push(gx as int, gy as int, wacts, a);
                            assert(wacts.push(a).len() == d + 1);
                        }
                    }
                    assert forall|q: int| head <= q < queue@.len() implies #[trigger] queue@[q].2 <= d + 1 && d <= queue@[q].2 by {
                        if q < q0.len() {
                            assert(queue@[q] == q0[q]);
                            assert(q0[h0].2 <= q0[q].2);
                            assert(lo0 <= q0[q].2 <= lo0 + 1);
                        } else {
                            assert(queue@[q].2 == d + 1);
                        }
                    }
                    assert forall|p: int, q: int| head <= p <= q < queue@.len() implies #[trigger] queue@[p].2 <= #[trigger] queue@[q].2 by {
                        if q < q0.len() {
                            assert(queue@[q] == q0[q]);
                            assert(queue@[p] == q0[p]);
                        } else {
                            assert(queue@[q].2 == d + 1);
                        }
                    }
                    assert forall|i: int| 0 <= i < n && (#[trigger] dists@[i]) is Some implies dists@[i].unwrap() <= lo by {
                        if i != t {
                            assert(before[i] is Some);
                        }
                    }
                }
            }
        }
        proof {
            reveal(Board::dist_closed);
            assert forall|x: int, y: int, a: Action| #[trigger] self.step_bounded(dists@, x, y, a) by {
                assert(self.dist_step_ok(dists@, queue@, head as int, x, y, a));
            }
            assert forall|acts: Seq<Action>| #[trigger] self.passable_walk(gx as int, gy as int, acts) implies dists@[self.index(
                Self::walk_end(gx as int, gy as int, acts).0,
                Self::walk_end(gx as int, gy as int, acts).1,
            )] is Some by {
                assert(head > 0);
                assert(self.passable(gx as int, gy as int));
                self.lemma_field_walk(dists@, gx as int, gy as int, acts);
            }
        }
        dists
    }

    /// The distance fields of every goal, in the order of the goals.
    fn calculate_goal_distances(&self) -> (r: Vec<Vec<Option<u32>>>)
        requires
            self.wf(),
        ensures
            r@.len() == self.goal_list().len(),
            forall|k: int| 0 <= k < r@.len() ==> (#[trigger] r@[k])@.len() == self.size(),
            forall|k: int, x: int, y: int| 0 <= k < r@.len() && self.in_grid(x, y) && (#[trigger] r@[k]@[self.index(x, y)]) is Some
                ==> self.passable(x, y) && r@[k]@[self.index(x, y)].unwrap() < self.size(),
            forall|k: int| 0 <= k < r@.len() && self.passable(#[trigger] self.goal_list()[k].0 as int, self.goal_list()[k].1 as int)
                ==> r@[k]@[self.index(self.goal_list()[k].0 as int, self.goal_list()[k].1 as int)] == Some(0u32),
            forall|k: int, x: int, y: int, a: Action| 0 <= k < r@.len() ==> #[trigger] self.step_bounded(r@[k]@, x, y, a),
            forall|k: int, x: int, y: int| 0 <= k < r@.len() && self.in_grid(x, y) && (#[trigger] r@[k]@[self.index(x, y)]) is Some
                ==> self.gwalk(
                self.goal_list()[k].0 as int,
                self.goal_list()[k].1 as int,
                x,
                y,
                r@[k]@[self.index(x, y)].unwrap() as int,
            ),
            forall|k: int, acts: Seq<Action>|
                0 <= k < r@.len() && #[trigger] self.passable_walk(self.goal_list()[k].0 as int, self.goal_list()[k].1 as int, acts)
                    ==> r@[k]@[self.index(
                    Self::walk_end(self.goal_list()[k].0 as int, self.goal_list()[k].1 as int, acts).0,
                    Self::walk_end(self.goal_list()[k].0 as int, self.goal_list()[k].1 as int, acts).1,
                )] is Some,
    {
        let mut r: Vec<Vec<Option<u32>>> = Vec::new();
        let mut k: usize = 0;
        while k < self.goals.len()
            invariant
                self.wf(),
                0 <= k <= self.goals.len(),
                r@.len() == k,
                forall|j: int| 0 <= j < r@.len() ==> (#[trigger] r@[j])@.len() == self.size(),
                forall|j: int, x: int, y: int| 0 <= j < r@.len() && self.in_grid(x, y) && (#[trigger] r@[j]@[self.index(x, y)]) is Some
                    ==> self.passable(x, y) && r@[j]@[self.index(x, y)].unwrap() < self.size(),
                forall|j: int| 0 <= j < r@.len() && self.passable(#[trigger] self.goal_list()[j].0 as int, self.goal_list()[j].1 as int)
                    ==> r@[j]@[self.index(self.goal_list()[j].0 as int, self.goal_list()[j].1 as int)] == Some(0u32),
                forall|j: int, x: int, y: int, a: Action| 0 <= j < r@.len() ==> #[trigger] self.step_bounded(r@[j]@, x, y, a),
                forall|j: int, x: int, y: int| 0 <= j < r@.len() && self.in_grid(x, y) && (#[trigger] r@[j]@[self.index(x, y)]) is Some
                    ==> self.gwalk(
                    self.goal_list()[j].0 as int,
                    self.goal_list()[j].1 as int,
                    x,
                    y,
                    r@[j]@[self.index(x, y)].unwrap() as int,
                ),
                forall|j: int, acts: Seq<Action>|
                    0 <= j < r@.len() && #[trigger] self.passable_walk(self.goal_list()[j].0 as int, self.goal_list()[j].1 as int, acts)
                        ==> r@[j]@[self.index(
                        Self::walk_end(self.goal_list()[j].0 as int, self.goal_list()[j].1 as int, acts).0,
                        Self::walk_end(self.goal_list()[j].0 as int, self.goal_list()[j].1 as int, acts).1,
                    )] is Some,
            decreases self.goals.len() - k,
        {
            let (gx, gy) = self.goals[k];
            assert(self.in_grid(self.goals@[k as int].0 as int, self.goals@[k as int].1 as int));
            let d = self.calculate_goal_distance(gx, gy);
            r.push(d);
            k += 1;
        }
        r
    }

    /// Some queue entry at or after `head` is tile `(x, y)`.
    spec fn ipending(queue: Seq<(u32, u32)>, head: int, x: int, y: int) -> bool {
        exists|q: int| head <= q < queue.len() && (#[trigger] queue[q]).0 as int == x && queue[q].1 as int == y
    }

    /// The non-wall neighbour in direction `a` of a marked tile is marked or
    /// waits in the queue.
    spec fn inb_ok(&self, inside: Seq<bool>, queue: Seq<(u32, u32)>, head: int, x: int, y: int, a: Action) -> bool {
        let nx = x + delta(a).0;
        let ny = y + delta(a).1;
        self.in_grid(x, y) && inside[self.index(x, y)] && !self.wall_at(nx, ny) ==> inside[self.index(nx, ny)]
            || Self::ipending(queue, head, nx, ny)
    }

    #[verifier::opaque]
    spec fn iclosed(&self, inside: Seq<bool>, queue: Seq<(u32, u32)>, head: int) -> bool {
        forall|x: int, y: int, a: Action| #[trigger] self.inb_ok(inside, queue, head, x, y, a)
    }

    proof fn lemma_iclosed_skip(&self, inside: Seq<bool>, queue: Seq<(u32, u32)>, head: int)
        requires
            self.wf(),
            inside.len() == self.size(),
            self.iclosed(inside, queue, head),
            0 <= head < queue.len(),
            self.in_grid(queue[head].0 as int, queue[head].1 as int),
            inside[self.index(queue[head].0 as int, queue[head].1 as int)] || self.wall_at(
                queue[head].0 as int,
                queue[head].1 as int,
            ),
        ensures
            self.iclosed(inside, queue, head + 1),
    {
        reveal(Board::iclosed);
        assert forall|x: int, y: int, a: Action| #[trigger] self.inb_ok(inside, queue, head + 1, x, y, a) by {
            assert(self.inb_ok(inside, queue, head, x, y, a));
            let nx = x + delta(a).0;
            let ny = y + delta(a).1;
            if self.in_grid(x, y) && inside[self.index(x, y)] && !self.wall_at(nx, ny) && !inside[self.index(nx, ny)] {
                let q = choose|q: int| head <= q < queue.len() && (#[trigger] queue[q]).0 as int == nx && queue[q].1 as int == ny;
                if q == head {
                    assert(false);
                } else {
                    assert(head + 1 <= q < queue.len() && queue[q].0 as int == nx && queue[q].1 as int == ny);
                }
            }
        }
    }

    proof fn lemma_iclosed_visit(&self, inside: Seq<bool>, queue: Seq<(u32, u32)>, head: int, queue2: Seq<(u32, u32)>)
        requires
            self.wf(),
            inside.len() == self.size(),
            self.iclosed(inside, queue, head),
            0 <= head < queue.len(),
            self.in_grid(queue[head].0 as int, queue[head].1 as int),
            queue.len() <= queue2.len(),
            forall|q: int| 0 <= q < queue.len() ==> #[trigger] queue2[q] == queue[q],
            forall|a: Action| Self::ipending(
                queue2,
                queue.len() as int,
                #[trigger] (queue[head].0 + delta(a).0),
                queue[head].1 + delta(a).1,
            ),
        ensures
            self.iclosed(inside.update(self.index(queue[head].0 as int, queue[head].1 as int), true), queue2, head + 1),
    {
        reveal(Board::iclosed);
        let ex = queue[head].0 as int;
        let ey = queue[head].1 as int;
        let t = self.index(ex, ey);
        self.lemma_index_bound(ex, ey);
        let inside2 = inside.update(t, true);
        assert forall|x: int, y: int, a: Action| #[trigger] self.inb_ok(inside2, queue2, head + 1, x, y, a) by {
            let nx = x + delta(a).0;
            let ny = y + delta(a).1;
            if self.in_grid(x, y) && inside2[self.index(x, y)] && !self.wall_at(nx, ny) {
                self.lemma_index_bound(x, y);
                self.lemma_index_bound(nx, ny);
                if self.index(x, y) == t {
                    self.lemma_index_inj(x, y, ex, ey);
                    assert(Self::ipending(queue2, queue.len() as int, ex + delta(a).0, ey + delta(a).1));
                    let q = choose|q: int| queue.len() <= q < queue2.len() && (#[trigger] queue2[q]).0 as int == nx
                        && queue2[q].1 as int == ny;
                    assert(head + 1 <= q);
                } else {
                    assert(inside[self.index(x, y)]);
                    assert(self.inb_ok(inside, queue, head, x, y, a));
                    if !inside[self.index(nx, ny)] {
                        let q = choose|q: int| head <= q < queue.len() && (#[trigger] queue[q]).0 as int == nx
                            && queue[q].1 as int == ny;
                        if q == head {
                            assert(inside2[self.index(nx, ny)]);
                        } else {
                            assert(queue2[q] == queue[q]);
                        }
                    }
                }
            }
        }
    }

    /// With the queue used up, every walk over non-wall tiles from a marked
    /// tile ends on a marked tile.
    proof fn lemma_iwalk(&self, inside: Seq<bool>, queue: Seq<(u32, u32)>, x: int, y: int, acts: Seq<Action>)
        requires
            self.wf(),
            inside.len() == self.size(),
            self.iclosed(inside, queue, queue.len() as int),
            self.in_grid(x, y),
            inside[self.index(x, y)],
            open_walk(self.width(), self.height(), self.walls@, x, y, acts),
        ensures
            self.in_grid(end_of(x, y, acts).0, end_of(x, y, acts).1),
            inside[self.index(end_of(x, y, acts).0, end_of(x, y, acts).1)],
        decreases acts.len(),
    {
        if acts.len() > 0 {
            reveal(Board::iclosed);
            let a = acts[0];
            let nx = x + delta(a).0;
            let ny = y + delta(a).1;
            assert(self.inb_ok(inside, queue, queue.len() as int, x, y, a));
            assert(open_walk(self.width(), self.height(), self.walls@, nx, ny, acts.drop_first()));
            assert(!grid_wall(self.width(), self.height(), self.walls@, nx, ny));
            assert(!self.wall_at(nx, ny));
            self.lemma_iwalk(inside, queue, nx, ny, acts.drop_first());
        }
    }

    /// The tiles the agent can walk to from `(px, py)` through non-wall
    /// tiles, or `None` when that walk reaches the edge of the grid.
    fn find_interior(&self, px: u32, py: u32) -> (r: Option<Vec<bool>>)
        requires
            self.wf(),
            self.in_grid(px as int, py as int),
        ensures
            match r {
                Some(m) => {
                    &&& m@.len() == self.size()
                    &&& forall|x: int, y: int| self.in_grid(x, y) && #[trigger] m@[self.index(x, y)] ==> !self.wall_at(x, y)
                        && 0 < x < self.width() - 1 && 0 < y < self.height() - 1
                    &&& !self.wall_at(px as int, py as int) ==> m@[self.index(px as int, py as int)]
                    &&& forall|acts: Seq<Action>| #[trigger] open_walk(self.width(), self.height(), self.walls@, px as int, py as int, acts)
                        ==> self.in_grid(end_of(px as int, py as int, acts).0, end_of(px as int, py as int, acts).1)
                        && m@[self.index(end_of(px as int, py as int, acts).0, end_of(px as int, py as int, acts).1)]
                    &&& !escapes(self.width(), self.height(), self.walls@, px as int, py as int)
                    &&& forall|x: int, y: int| self.in_grid(x, y) && #[trigger] m@[self.index(x, y)] ==> reaches(
                        self.width(),
                        self.height(),
                        self.walls@,
                        px as int,
                        py as int,
                        x,
                        y,
                    )
                },
                None => escapes(self.width(), self.height(), self.walls@, px as int, py as int),
            },
    {
        let ghost W = self.width();
        let ghost H = self.height();
        let ghost WL = self.walls@;
        let n = self.walls.len();
        let mut inside: Vec<bool> = filled(false, n);
        let ghost mut seen_set: Set<int> = Set::empty();
        let mut queue: Vec<(u32, u32)> = Vec::new();
        queue.push((px, py));
        let mut head: usize = 0;
        let ghost pi = self.index(px as int, py as int);
        proof {
            vstd::set_lib::lemma_int_range(0, n as int);
            self.lemma_index_bound(px as int, py as int);
            assert forall|x: int, y: int| self.in_grid(x, y) && #[trigger] inside@[self.index(x, y)] implies !self.wall_at(x, y)
                && 0 < x < self.width() - 1 && 0 < y < self.height() - 1 by {
                self.lemma_index_bound(x, y);
            }
            reveal(Board::iclosed);
            assert forall|x: int, y: int, a: Action| #[trigger] self.inb_ok(inside@, queue@, 0, x, y, a) by {
                if self.in_grid(x, y) {
                    self.lemma_index_bound(x, y);
                }
            }
            assert(open_walk(W, H, WL, px as int, py as int, Seq::<Action>::empty()) ==> end_of(px as int, py as int, Seq::<Action>::empty())
                == (px as int, py as int));
            if !self.wall_at(px as int, py as int) {
                assert(open_walk(W, H, WL, px as int, py as int, Seq::<Action>::empty()));
            }
            assert forall|x: int, y: int| self.in_grid(x, y) && #[trigger] inside@[self.index(x, y)] implies reaches(
                W,
                H,
                WL,
                px as int,
                py as int,
                x,
                y,
            ) by {
                self.lemma_index_bound(x, y);
            }
        }
        while head < queue.len()
            invariant
                self.wf(),
                self.in_grid(px as int, py as int),
                pi == self.index(px as int, py as int),
                0 <= pi < n,
                n == self.size(),
                inside@.len() == n,
                forall|i: int| #[trigger] seen_set.contains(i) <==> (0 <= i < n && inside@[i]),
                seen_set.finite(),
                seen_set.len() <= n,
                vstd::set_lib::set_int_range(0, n as int).finite(),
                vstd::set_lib::set_int_range(0, n as int).len() == n,
                0 <= head <= queue@.len(),
                forall|q: int| head <= q < queue@.len() ==> self.in_grid(#[trigger] queue@[q].0 as int, queue@[q].1 as int),
                forall|x: int, y: int| self.in_grid(x, y) && #[trigger] inside@[self.index(x, y)] ==> !self.wall_at(x, y)
                    && 0 < x < self.width() - 1 && 0 < y < self.height() - 1,
                head == 0 ==> queue@.len() == 1 && queue@[0] == (px, py) && seen_set.len() == 0,
                head > 0 && !self.wall_at(px as int, py as int) ==> inside@[pi],
                W == self.width() && H == self.height() && WL == self.walls@,
                self.iclosed(inside@, queue@, head as int),
                forall|x: int, y: int| self.in_grid(x, y) && #[trigger] inside@[self.index(x, y)] ==> reaches(
                    W,
                    H,
                    WL,
                    px as int,
                    py as int,
                    x,
                    y,
                ),
                forall|q: int| head <= q < queue@.len() && !self.wall_at(#[trigger] queue@[q].0 as int, queue@[q].1 as int)
                    ==> reaches(W, H, WL, px as int, py as int, queue@[q].0 as int, queue@[q].1 as int),
            decreases 4 * (n - seen_set.len()) + queue@.len() - head,
        {
            let (x, y) = queue[head];
            assert(self.in_grid(queue@[head as int].0 as int, queue@[head as int].1 as int));
            let ghost h0 = head as int;
            let ghost qs = queue@;
            head += 1;
            let t = self.tile(x, y);
            if inside[t] || self.is_wall(x as i64, y as i64) {
                proof {
                    self.lemma_iclosed_skip(inside@, qs, h0);
                }
            } else {
                if x == 0 || (x as usize) == self.width - 1 || y == 0 || (y as usize) == self.height - 1 {
                    proof {
                        assert(!self.wall_at(qs[h0].0 as int, qs[h0].1 as int));
                        assert(reaches(W, H, WL, px as int, py as int, x as int, y as int));
                        let acts = choose|acts: Seq<Action>| #[trigger] open_walk(W, H, WL, px as int, py as int, acts) && end_of(
                            px as int,
                            py as int,
                            acts,
                        ) == (x as int, y as int);
                        assert(on_border(W, H, end_of(px as int, py as int, acts).0, end_of(px as int, py as int, acts).1));
                    }
                    return None;
                }
                let ghost before = inside@;
                proof {
                    assert(!seen_set.contains(t as int));
                    assert(seen_set.insert(t as int).subset_of(vstd::set_lib::set_int_range(0, n as int)));
                    vstd::set_lib::lemma_len_subset(seen_set.insert(t as int), vstd::set_lib::set_int_range(0, n as int));
                }
                inside.set(t, true);
                proof {
                    seen_set = seen_set.insert(t as int);
                    assert forall|x2: int, y2: int| self.in_grid(x2, y2) && #[trigger] inside@[self.index(x2, y2)] implies !self.wall_at(x2, y2)
                        && 0 < x2 < self.width() - 1 && 0 < y2 < self.height() - 1 by {
                        self.lemma_index_bound(x2, y2);
                        if self.index(x2, y2) == t {
                            self.lemma_index_inj(x2, y2, x as int, y as int);
                        } else {
                            assert(before[self.index(x2, y2)]);
                        }
                    }
                    if head > 1 && !self.wall_at(px as int, py as int) {
                        assert(before[pi]);
                    }
                }
                let ghost q0 = queue@;
                queue.push((x + 1, y));
                queue.push((x - 1, y));
                queue.push((x, y + 1));
                queue.push((x, y - 1));
                assert forall|q: int| head <= q < queue@.len() implies self.in_grid(#[trigger] queue@[q].0 as int, queue@[q].1 as int) by {
                    if q < q0.len() {
                        assert(queue@[q] == q0[q]);
                    }
                }
                proof {
                    let xi = x as int;
                    let yi = y as int;
                    let l = q0.len() as int;
                    assert(queue@[l].0 as int == xi + 1 && queue@[l].1 == y);
                    assert(queue@[l + 1].0 as int == xi - 1 && queue@[l + 1].1 == y);
                    assert(queue@[l + 2].0 == x && queue@[l + 2].1 as int == yi + 1);
                    assert(queue@[l + 3].0 == x && queue@[l + 3].1 as int == yi - 1);
                    assert forall|a: Action| Self::ipending(queue@, l, #[trigger] (xi + delta(a).0), yi + delta(a).1) by {
                        match a {
                            Action::Right => assert(queue@[l].0 as int == xi + 1 && queue@[l].1 as int == yi),
                            Action::Left => assert(queue@[l + 1].0 as int == xi - 1 && queue@[l + 1].1 as int == yi),
                            Action::Down => assert(queue@[l + 2].0 as int == xi && queue@[l + 2].1 as int == yi + 1),
                            Action::Up => assert(queue@[l + 3].0 as int == xi && queue@[l + 3].1 as int == yi - 1),
                        }
                    }
                    assert(forall|q: int| 0 <= q < q0.len() ==> queue@[q] == q0[q]);
                    assert(qs == q0);
                    self.lemma_iclosed_visit(before, q0, h0, queue@);
                    assert(inside@ == before.update(t as int, true));
                    assert(!self.wall_at(qs[h0].0 as int, qs[h0].1 as int));
                    assert(reaches(W, H, WL, px as int, py as int, xi, yi));
                    let acts = choose|acts: Seq<Action>| #[trigger] open_walk(W, H, WL, px as int, py as int, acts) && end_of(
                        px as int,
                        py as int,
                        acts,
                    ) == (xi, yi);
                    assert forall|x2: int, y2: int| self.in_grid(x2, y2) && #[trigger] inside@[self.index(x2, y2)] implies reaches(
                        W,
                        H,
                        WL,
                        px as int,
                        py as int,
                        x2,
                        y2,
                    ) by {
                        self.lemma_index_bound(x2, y2);
                        if self.index(x2, y2) == t {
                            self.lemma_index_inj(x2, y2, xi, yi);
                        } else {
                            assert(before[self.index(x2, y2)]);
                        }
                    }
                    assert forall|q: int| head <= q < queue@.len() && !self.wall_at(#[trigger] queue@[q].0 as int, queue@[q].1 as int)
                        implies reaches(W, H, WL, px as int, py as int, queue@[q].0 as int, queue@[q].1 as int) by {
                        if q < q0.len() {
                            assert(queue@[q] == q0[q]);
                        } else {
                            let a = if q == l {
                                Action::Right
                            } else if q == l + 1 {
                                Action::Left
                            } else if q == l + 2 {
                                Action::Down
                            } else {
                                Action::Up
                            };
                            assert(queue@[q].0 as int == xi + delta(a).0 && queue@[q].1 as int == yi + delta(a).1);
                            lemma_open_walk_push(W, H, WL, px as int, py as int, acts, a);
                            assert(open_walk(W, H, WL, px as int, py as int, acts.push(a)));
                        }
                    }
                }
            }
        }
        proof {
            assert(head > 0);
            assert forall|acts: Seq<Action>| #[trigger] open_walk(W, H, WL, px as int, py as int, acts) implies self.in_grid(
                end_of(px as int, py as int, acts).0,
                end_of(px as int, py as int, acts).1,
            ) && inside@[self.index(end_of(px as int, py as int, acts).0, end_of(px as int, py as int, acts).1)] by {
                assert(!grid_wall(W, H, WL, px as int, py as int));
                assert(!self.wall_at(px as int, py as int));
                self.lemma_iwalk(inside@, queue@, px as int, py as int, acts);
            }
            assert forall|acts: Seq<Action>| #[trigger] open_walk(W, H, WL, px as int, py as int, acts) implies !on_border(
                W,
                H,
                end_of(px as int, py as int, acts).0,
                end_of(px as int, py as int, acts).1,
            ) by {
                assert(!self.wall_at(px as int, py as int));
                self.lemma_iwalk(inside@, queue@, px as int, py as int, acts);
            }
        }
        Some(inside)
    }

    /// Boards with the same grid, walls and goal tiles give every tile the
    /// same reason to be dead.
    proof fn lemma_reason_same(b0: &Board, b: &Board, m: Seq<bool>, x: int, y: int)
        requires
            b.width == b0.width,
            b.height == b0.height,
            b.walls@ == b0.walls@,
            b.goal_tiles@ == b0.goal_tiles@,
        ensures
            b0.dead_reason(m, x, y) == b.dead_reason(m, x, y),
    {
        assert forall|x0: int, x1: int, yy: int, side: int| #[trigger] b0.sealed_across(m, x0, x1, yy, side) == b.sealed_across(
            m,
            x0,
            x1,
            yy,
            side,
        ) by {
            assert(b0.wall_at(x1 + 1, yy) == b.wall_at(x1 + 1, yy));
            if b0.sealed_across(m, x0, x1, yy, side) {
                assert forall|xx: int| x0 <= xx <= x1 implies #[trigger] b.across_tile(m, xx, yy, side) by {
                    assert(b0.across_tile(m, xx, yy, side));
                }
            }
            if b.sealed_across(m, x0, x1, yy, side) {
                assert forall|xx: int| x0 <= xx <= x1 implies #[trigger] b0.across_tile(m, xx, yy, side) by {
                    assert(b.across_tile(m, xx, yy, side));
                }
            }
        }
        assert forall|xx: int, y0: int, y1: int, side: int| #[trigger] b0.sealed_down(m, xx, y0, y1, side) == b.sealed_down(
            m,
            xx,
            y0,
            y1,
            side,
        ) by {
            assert(b0.wall_at(xx, y1 + 1) == b.wall_at(xx, y1 + 1));
            if b0.sealed_down(m, xx, y0, y1, side) {
                assert forall|yy: int| y0 <= yy <= y1 implies #[trigger] b.down_tile(m, xx, yy, side) by {
                    assert(b0.down_tile(m, xx, yy, side));
                }
            }
            if b.sealed_down(m, xx, y0, y1, side) {
                assert forall|yy: int| y0 <= yy <= y1 implies #[trigger] b0.down_tile(m, xx, yy, side) by {
                    assert(b.down_tile(m, xx, yy, side));
                }
            }
        }
        assert forall|xx: int, yy: int| #[trigger] b0.dead_corner(m, xx, yy) == b.dead_corner(m, xx, yy) by {
        }
        if b0.dead_reason(m, x, y) {
            if exists|x0: int, x1: int, side: int|
                (side == -1 || side == 1) && b0.dead_corner(m, x0, y) && #[trigger] b0.sealed_across(m, x0, x1, y, side) && x0 <= x <= x1 {
                let (x0, x1, side) = choose|x0: int, x1: int, side: int|
                    (side == -1 || side == 1) && b0.dead_corner(m, x0, y) && #[trigger] b0.sealed_across(m, x0, x1, y, side) && x0 <= x <= x1;
                assert(b.sealed_across(m, x0, x1, y, side));
            } else if exists|y0: int, y1: int, side: int|
                (side == -1 || side == 1) && b0.dead_corner(m, x, y0) && #[trigger] b0.sealed_down(m, x, y0, y1, side) && y0 <= y <= y1 {
                let (y0, y1, side) = choose|y0: int, y1: int, side: int|
                    (side == -1 || side == 1) && b0.dead_corner(m, x, y0) && #[trigger] b0.sealed_down(m, x, y0, y1, side) && y0 <= y <= y1;
                assert(b.sealed_down(m, x, y0, y1, side));
            }
        }
        if b.dead_reason(m, x, y) {
            if exists|x0: int, x1: int, side: int|
                (side == -1 || side == 1) && b.dead_corner(m, x0, y) && #[trigger] b.sealed_across(m, x0, x1, y, side) && x0 <= x <= x1 {
                let (x0, x1, side) = choose|x0: int, x1: int, side: int|
                    (side == -1 || side == 1) && b.dead_corner(m, x0, y) && #[trigger] b.sealed_across(m, x0, x1, y, side) && x0 <= x <= x1;
                assert(b0.sealed_across(m, x0, x1, y, side));
            } else if exists|y0: int, y1: int, side: int|
                (side == -1 || side == 1) && b.dead_corner(m, x, y0) && #[trigger] b.sealed_down(m, x, y0, y1, side) && y0 <= y <= y1 {
                let (y0, y1, side) = choose|y0: int, y1: int, side: int|
                    (side == -1 || side == 1) && b.dead_corner(m, x, y0) && #[trigger] b.sealed_down(m, x, y0, y1, side) && y0 <= y <= y1;
                assert(b0.sealed_down(m, x, y0, y1, side));
            }
        }
    }

    /// Boards that agree on which tiles are passable admit the same
    /// passable walks.
    proof fn lemma_pwalk_same(b0: &Board, b: &Board, x: int, y: int, acts: Seq<Action>)
        requires
            forall|xx: int, yy: int| #[trigger] b0.passable(xx, yy) == b.passable(xx, yy),
        ensures
            b0.passable_walk(x, y, acts) == b.passable_walk(x, y, acts),
        decreases acts.len(),
    {
        if acts.len() > 0 {
            Self::lemma_pwalk_same(b0, b, x + delta(acts[0]).0, y + delta(acts[0]).1, acts.drop_first());
        }
        assert(b0.passable(x, y) == b.passable(x, y));
    }

    proof fn lemma_wf_frame(b0: &Board, b: &Board)
        requires
            b0.wf(),
            b.goals@ == b0.goals@,
            b.width == b0.width,
            b.height == b0.height,
            b.walls@ == b0.walls@,
            b.goal_tiles@ == b0.goal_tiles@,
            b.dead_tiles@.len() == b0.size(),
            b.goal_dists@.len() == b0.goals@.len(),
            forall|k: int| 0 <= k < b0.goals.len() ==> #[trigger] b.goal_dists@[k].len() == b0.size(),
            forall|k: int, x: int, y: int|
                0 <= k < b0.goals.len() && b0.in_grid(x, y) && (#[trigger] b.goal_dists@[k]@[b0.index(x, y)]).is_some()
                    ==> b.goal_dists@[k]@[b0.index(x, y)].unwrap() < b0.size(),
            forall|x: int, y: int| b0.in_grid(x, y) && #[trigger] b.dead_tiles@[b0.index(x, y)] ==> !b0.goal_tiles@[b0.index(x, y)],
        ensures
            b.wf(),
            forall|x: int, y: int| #[trigger] b.index(x, y) == b0.index(x, y),
    {
        assert forall|x: int, y: int| #[trigger] b.index(x, y) == b0.index(x, y) by {
        }
        assert forall|k: int, x: int, y: int|
            0 <= k < b.goals.len() && b.in_grid(x, y) && (#[trigger] b.goal_dists@[k]@[b.index(x, y)]).is_some()
                implies b.goal_dists@[k]@[b.index(x, y)].unwrap() < b.size() by {
            assert(b.index(x, y) == b0.index(x, y));
        }
        assert forall|x: int, y: int| b.in_grid(x, y) && #[trigger] b.dead_tiles@[b.index(x, y)] implies !b.goal_tiles@[b.index(x, y)] by {
            assert(b.index(x, y) == b0.index(x, y));
        }
        assert forall|x: int, y: int| b.in_grid(x, y) && #[trigger] b.goal_tiles@[b.index(x, y)] implies exists|k: int|
            0 <= k < b.goals.len() && (#[trigger] b.goals@[k]).0 as int == x && b.goals@[k].1 as int == y by {
            assert(b.index(x, y) == b0.index(x, y));
            assert(b0.goal_tiles@[b0.index(x, y)]);
        }
        assert forall|k: int| 0 <= k < b.goals.len() implies {
            &&& b.in_grid(#[trigger] b.goals@[k].0 as int, b.goals@[k].1 as int)
            &&& b.goal_tiles@[b.index(b.goals@[k].0 as int, b.goals@[k].1 as int)]
        } by {
            assert(b0.in_grid(b0.goals@[k].0 as int, b0.goals@[k].1 as int));
            assert(b.index(b.goals@[k].0 as int, b.goals@[k].1 as int) == b0.index(b0.goals@[k].0 as int, b0.goals@[k].1 as int));
        }
    }

    /// The masks have one entry per tile, the agent and the goals lie in the
    /// grid, no crate stands on a wall, and the agent's tile is free.
    pub open spec fn level_fits(
        width: int,
        height: int,
        walls: Seq<bool>,
        goals: Seq<(u32, u32)>,
        crates: Seq<bool>,
        player: (u32, u32),
    ) -> bool {
        &&& walls.len() == width * height
        &&& crates.len() == width * height
        &&& player.0 < width && player.1 < height
        &&& forall|k: int| 0 <= k < goals.len() ==> #[trigger] goals[k].0 < width && goals[k].1 < height
        &&& forall|i: int| 0 <= i < width * height && #[trigger] crates[i] ==> !walls[i]
        &&& !walls[player.1 * width + player.0]
        &&& !crates[player.1 * width + player.0]
    }

    /// Builds the static board and the start state of a level from its wall
    /// mask, goal tiles, crate mask and agent tile (row-major masks): checks
    /// the shape and that the agent is enclosed, then finds the dead tiles
    /// and each goal's distance field.
    pub fn analyze(
        width: usize,
        height: usize,
        walls: Vec<bool>,
        goals: Vec<(u32, u32)>,
        crates: Vec<bool>,
        player: (u32, u32),
    ) -> (r: Result<(Board, BoardState), LevelError>)
        ensures
            (r matches Err(e) && e == LevelError::TooLarge) <==> !(1 <= width <= MAX_SIDE && 1 <= height <= MAX_SIDE),
            1 <= width <= MAX_SIDE && 1 <= height <= MAX_SIDE ==> ((r matches Err(e) && e == LevelError::Malformed)
                <==> !Self::level_fits(width as int, height as int, walls@, goals@, crates@, player)),
            r matches Err(e) ==> e == LevelError::TooLarge || e == LevelError::Malformed || e == LevelError::NotEnclosed,
            1 <= width <= MAX_SIDE && 1 <= height <= MAX_SIDE && Self::level_fits(
                width as int,
                height as int,
                walls@,
                goals@,
                crates@,
                player,
            ) ==> ((r matches Err(e) && e == LevelError::NotEnclosed) <==> escapes(
                width as int,
                height as int,
                walls@,
                player.0 as int,
                player.1 as int,
            )),
            r matches Ok((b, s)) ==> {
                &&& b.wf()
                &&& b.distances_ok()
                &&& b.state_wf(&s)
                &&& b.width() == width && b.height() == height
                &&& b.goal_list() == goals@
                &&& s.player_pos() == (player.0 as int, player.1 as int)
                &&& s.bits() == crates@
                &&& forall|x: int, y: int| b.in_grid(x, y) ==> #[trigger] b.wall_at(x, y) == walls@[b.index(x, y)]
                &&& forall|x: int, y: int| #[trigger] b.dead_at(x, y) ==> !b.wall_at(x, y) && !b.goal_at(x, y)
                &&& forall|k: int, x: int, y: int| 0 <= k < goals@.len() && b.in_grid(x, y) && (#[trigger] b.dist(k, x, y)) is Some
                    ==> b.passable(x, y)
                &&& forall|k: int| 0 <= k < goals@.len() && b.passable(#[trigger] goals@[k].0 as int, goals@[k].1 as int)
                    ==> b.dist(k, goals@[k].0 as int, goals@[k].1 as int) == Some(0u32)
                &&& forall|k: int, x: int, y: int| 0 <= k < goals@.len() ==> #[trigger] b.dist(k, x, y) == b.field(k)[b.index(x, y)]
                &&& forall|k: int, x: int, y: int, a: Action| 0 <= k < goals@.len() ==> #[trigger] b.step_bounded(b.field(k), x, y, a)
                &&& forall|acts: Seq<Action>| #[trigger] open_walk(width as int, height as int, walls@, player.0 as int, player.1 as int, acts)
                    && b.corner_at(end_of(player.0 as int, player.1 as int, acts).0, end_of(player.0 as int, player.1 as int, acts).1)
                    && !b.goal_at(end_of(player.0 as int, player.1 as int, acts).0, end_of(player.0 as int, player.1 as int, acts).1)
                    ==> b.dead_at(end_of(player.0 as int, player.1 as int, acts).0, end_of(player.0 as int, player.1 as int, acts).1)
                &&& forall|x: int, y: int| b.in_grid(x, y) ==> (#[trigger] b.inside_mask()[b.index(x, y)] <==> reaches(
                    width as int,
                    height as int,
                    walls@,
                    player.0 as int,
                    player.1 as int,
                    x,
                    y,
                ))
                &&& forall|x: int, y: int| #[trigger] b.dead_at(x, y) <==> (b.in_grid(x, y) && b.dead_reason(b.inside_mask(), x, y))
                &&& forall|k: int, x: int, y: int| 0 <= k < goals@.len() && b.in_grid(x, y) && (#[trigger] b.dist(k, x, y)) is Some ==> b.gwalk(
                    goals@[k].0 as int,
                    goals@[k].1 as int,
                    x,
                    y,
                    b.dist(k, x, y).unwrap() as int,
                )
                &&& forall|k: int, acts: Seq<Action>|
                    0 <= k < goals@.len() && #[trigger] b.passable_walk(goals@[k].0 as int, goals@[k].1 as int, acts) ==> b.dist(
                        k,
                        Self::walk_end(goals@[k].0 as int, goals@[k].1 as int, acts).0,
                        Self::walk_end(goals@[k].0 as int, goals@[k].1 as int, acts).1,
                    ) is Some
            },
    {
        if width < 1 || width > MAX_SIDE || height < 1 || height > MAX_SIDE {
            return Err(LevelError::TooLarge);
        }
        proof {
            let w = width as int;
            let h = height as int;
            assert(w * h <= 0xffff * 0xffff) by (nonlinear_arith)
                requires
                    1 <= w <= 0xffff,
                    1 <= h <= 0xffff,
            ;
        }
        let n = width * height;
        if walls.len() != n || crates.len() != n || player.0 as usize >= width || player.1 as usize >= height {
            return Err(LevelError::Malformed);
        }
        let mut k: usize = 0;
        while k < goals.len()
            invariant
                0 <= k <= goals@.len(),
                1 <= width <= MAX_SIDE,
                1 <= height <= MAX_SIDE,
                forall|j: int| 0 <= j < k ==> #[trigger] goals@[j].0 < width && goals@[j].1 < height,
            decreases goals.len() - k,
        {
            if goals[k].0 as usize >= width || goals[k].1 as usize >= height {
                return Err(LevelError::Malformed);
            }
            k += 1;
        }
        let mut i: usize = 0;
        while i < n
            invariant
                0 <= i <= n,
                1 <= width <= MAX_SIDE,
                1 <= height <= MAX_SIDE,
                walls@.len() == n,
                crates@.len() == n,
                forall|j: int| 0 <= j < i && #[trigger] crates@[j] ==> !walls@[j],
            decreases n - i,
        {
            if crates[i] && walls[i] {
                return Err(LevelError::Malformed);
            }
            i += 1;
        }
        proof {
            lemma_grid_index(width as int, height as int, player.0 as int, player.1 as int);
        }
        let pt = player.1 as usize * width + player.0 as usize;
        if walls[pt] || crates[pt] {
            return Err(LevelError::Malformed);
        }
        assert(Self::level_fits(width as int, height as int, walls@, goals@, crates@, player));
        let mut goal_tiles = filled(false, n);
        let mut placeholder: Vec<Vec<Option<u32>>> = Vec::new();
        let mut k: usize = 0;
        while k < goals.len()
            invariant
                0 <= k <= goals@.len(),
                n == width * height,
                1 <= width <= MAX_SIDE,
                1 <= height <= MAX_SIDE,
                goal_tiles@.len() == n,
                placeholder@.len() == k,
                Self::level_fits(width as int, height as int, walls@, goals@, crates@, player),
                forall|j: int| 0 <= j < goals@.len() ==> #[trigger] goals@[j].0 < width && goals@[j].1 < height,
                forall|j: int| 0 <= j < k ==> #[trigger] goal_tiles@[goals@[j].1 * width + goals@[j].0],
                forall|j: int| 0 <= j < k ==> (#[trigger] placeholder@[j])@ == Seq::new(n as nat, |i: int| None::<u32>),
                forall|i: int| 0 <= i < n && #[trigger] goal_tiles@[i] ==> exists|j: int|
                    0 <= j < k && (#[trigger] goals@[j]).1 * width + goals@[j].0 == i,
            decreases goals.len() - k,
        {
            let (gx, gy) = goals[k];
            proof {
                lemma_grid_index(width as int, height as int, gx as int, gy as int);
                assert forall|j: int| 0 <= j < k implies #[trigger] goals@[j].1 * width + goals@[j].0 < n by {
                    lemma_grid_index(width as int, height as int, goals@[j].0 as int, goals@[j].1 as int);
                }
            }
            let ghost before = goal_tiles@;
            goal_tiles.set(gy as usize * width + gx as usize, true);
            proof {
                assert forall|j: int| 0 <= j < k + 1 implies #[trigger] goal_tiles@[goals@[j].1 * width + goals@[j].0] by {
                    lemma_grid_index(width as int, height as int, goals@[j].0 as int, goals@[j].1 as int);
                    if j < k {
                        assert(before[goals@[j].1 * width + goals@[j].0]);
                    }
                }
                assert forall|i: int| 0 <= i < n && #[trigger] goal_tiles@[i] implies exists|j: int|
                    0 <= j < k + 1 && (#[trigger] goals@[j]).1 * width + goals@[j].0 == i by {
                    if i == gy * width + gx {
                        assert(goals@[k as int].1 * width + goals@[k as int].0 == i);
                    } else {
                        assert(before[i]);
                        let j = choose|j: int| 0 <= j < k && (#[trigger] goals@[j]).1 * width + goals@[j].0 == i;
                        assert(0 <= j < k + 1 && goals@[j].1 * width + goals@[j].0 == i);
                    }
                }
            }
            placeholder.push(filled(None, n));
            k += 1;
        }
        let mut board = Board {
            goals,
            goal_dists: placeholder,
            goal_tiles,
            walls,
            dead_tiles: filled(false, n),
            inside: filled(false, n),
            width,
            height,
        };
        proof {
            assert forall|k: int| 0 <= k < board.goals.len() implies #[trigger] board.goal_dists@[k].len() == board.size() by {
                assert(board.goal_dists@[k]@ == Seq::new(n as nat, |i: int| None::<u32>));
            }
            assert forall|k: int, x: int, y: int|
                0 <= k < board.goals.len() && board.in_grid(x, y) && (#[trigger] board.goal_dists@[k]@[board.index(x, y)]).is_some()
                    implies board.goal_dists@[k]@[board.index(x, y)].unwrap() < board.size() by {
                assert(board.goal_dists@[k]@ == Seq::new(n as nat, |i: int| None::<u32>));
                lemma_grid_index(width as int, height as int, x, y);
            }
            assert forall|x: int, y: int| board.in_grid(x, y) && #[trigger] board.dead_tiles@[board.index(x, y)]
                implies !board.goal_tiles@[board.index(x, y)] by {
                lemma_grid_index(width as int, height as int, x, y);
            }
            assert forall|x: int, y: int| board.in_grid(x, y) && #[trigger] board.goal_tiles@[board.index(x, y)] implies exists|k: int|
                0 <= k < board.goals.len() && (#[trigger] board.goals@[k]).0 as int == x && board.goals@[k].1 as int == y by {
                lemma_grid_index(width as int, height as int, x, y);
                let i = y * width + x;
                let j = choose|j: int| 0 <= j < board.goals.len() && (#[trigger] board.goals@[j]).1 * width + board.goals@[j].0 == i;
                lemma_grid_inj(width as int, x, y, board.goals@[j].0 as int, board.goals@[j].1 as int);
            }
            assert forall|k: int| 0 <= k < board.goals.len() implies {
                &&& board.in_grid(#[trigger] board.goals@[k].0 as int, board.goals@[k].1 as int)
                &&& board.goal_tiles@[board.index(board.goals@[k].0 as int, board.goals@[k].1 as int)]
            } by {
                assert(board.goal_tiles@[board.goals@[k].1 * width + board.goals@[k].0]);
            }
            assert(board.wf());
        }
        let state = BoardState { player, crates };
        proof {
            assert(board.width() == width as int && board.height() == height as int && board.walls@ == walls@);
        }
        let interior = match board.find_interior(player.0, player.1) {
            Some(m) => m,
            None => {
                return Err(LevelError::NotEnclosed);
            },
        };
        let dead = board.find_dead_tiles(&interior);
        let ghost b0 = board;
        board.dead_tiles = dead;
        board.inside = interior;
        proof {
            assert forall|x: int, y: int| b0.in_grid(x, y) && #[trigger] board.dead_tiles@[b0.index(x, y)]
                implies !b0.goal_tiles@[b0.index(x, y)] by {
                assert(!b0.goal_at(x, y));
            }
            Self::lemma_wf_frame(&b0, &board);
            assert forall|x: int, y: int| #[trigger] board.dead_at(x, y) implies !board.wall_at(x, y) && !board.goal_at(x, y) by {
                assert(interior@[b0.index(x, y)]);
            }
        }
        let dists = board.calculate_goal_distances();
        let ghost b1 = board;
        board.goal_dists = dists;
        proof {
            Self::lemma_wf_frame(&b1, &board);
            assert forall|x: int, y: int| #[trigger] board.dead_at(x, y) implies !board.wall_at(x, y) && !board.goal_at(x, y) by {
                assert(b1.dead_at(x, y));
            }
            assert forall|k: int, x: int, y: int| 0 <= k < goals@.len() && board.in_grid(x, y) && (#[trigger] board.dist(k, x, y)) is Some
                implies board.passable(x, y) by {
                assert(dists@[k]@[b1.index(x, y)] is Some);
                assert(b1.passable(x, y));
            }
            assert forall|k: int| 0 <= k < goals@.len() && board.passable(#[trigger] goals@[k].0 as int, goals@[k].1 as int)
                implies board.dist(k, goals@[k].0 as int, goals@[k].1 as int) == Some(0u32) by {
                assert(b1.passable(b1.goal_list()[k].0 as int, b1.goal_list()[k].1 as int));
            }
            assert forall|x: int, y: int| board.in_grid(x, y) implies #[trigger] board.wall_at(x, y) == board.walls@[board.index(x, y)] by {
            }
            assert forall|k: int, x: int, y: int, a: Action| 0 <= k < goals@.len() implies #[trigger] board.step_bounded(
                board.field(k),
                x,
                y,
                a,
            ) by {
                assert(b1.step_bounded(dists@[k]@, x, y, a));
                let nx = x + delta(a).0;
                let ny = y + delta(a).1;
                assert(board.index(x, y) == b1.index(x, y));
                assert(board.index(nx, ny) == b1.index(nx, ny));
                assert(board.passable(nx, ny) == b1.passable(nx, ny));
                assert(board.field(k) == dists@[k]@);
            }
            assert forall|k: int, x: int, y: int, a: Action| 0 <= k < board.goals.len() implies #[trigger] board.step_bounded(
                board.goal_dists@[k]@,
                x,
                y,
                a,
            ) by {
                assert(board.step_bounded(board.field(k), x, y, a));
            }
            assert forall|k: int| 0 <= k < board.goals.len() && board.passable(#[trigger] board.goals@[k].0 as int, board.goals@[k].1 as int)
                implies board.goal_dists@[k]@[board.index(board.goals@[k].0 as int, board.goals@[k].1 as int)] == Some(0u32) by {
                assert(board.passable(goals@[k].0 as int, goals@[k].1 as int));
                assert(board.dist(k, goals@[k].0 as int, goals@[k].1 as int) == Some(0u32));
            }
            assert(board.distances_ok());
            assert forall|acts: Seq<Action>| #[trigger] open_walk(width as int, height as int, walls@, player.0 as int, player.1 as int, acts)
                && board.corner_at(end_of(player.0 as int, player.1 as int, acts).0, end_of(player.0 as int, player.1 as int, acts).1)
                && !board.goal_at(end_of(player.0 as int, player.1 as int, acts).0, end_of(player.0 as int, player.1 as int, acts).1)
                implies board.dead_at(end_of(player.0 as int, player.1 as int, acts).0, end_of(player.0 as int, player.1 as int, acts).1) by {
                let e = end_of(player.0 as int, player.1 as int, acts);
                assert(b0.in_grid(e.0, e.1) && interior@[b0.index(e.0, e.1)]);
                assert(b0.corner_at(e.0, e.1) == board.corner_at(e.0, e.1));
                assert(!b0.goal_at(e.0, e.1));
                assert(dead@[b0.index(e.0, e.1)]);
                assert(board.index(e.0, e.1) == b0.index(e.0, e.1));
            }
            let (w, h, px, py) = (width as int, height as int, player.0 as int, player.1 as int);
            assert forall|x: int, y: int| board.in_grid(x, y) implies (#[trigger] board.inside_mask()[board.index(x, y)] <==> reaches(
                w,
                h,
                walls@,
                px,
                py,
                x,
                y,
            )) by {
                assert(board.index(x, y) == b0.index(x, y));
                if reaches(w, h, walls@, px, py, x, y) {
                    let acts = choose|acts: Seq<Action>| #[trigger] open_walk(w, h, walls@, px, py, acts) && end_of(px, py, acts) == (x, y);
                    assert(interior@[b0.index(end_of(px, py, acts).0, end_of(px, py, acts).1)]);
                }
                if interior@[b0.index(x, y)] {
                    assert(reaches(b0.width(), b0.height(), b0.walls@, px, py, x, y));
                }
            }
            assert forall|x: int, y: int| #[trigger] board.dead_at(x, y) <==> (board.in_grid(x, y) && board.dead_reason(
                board.inside_mask(),
                x,
                y,
            )) by {
                if board.in_grid(x, y) {
                    assert(board.index(x, y) == b0.index(x, y));
                    Self::lemma_reason_same(&b0, &board, interior@, x, y);
                    if b0.dead_reason(interior@, x, y) {
                        assert(dead@[b0.index(x, y)]);
                    }
                    if dead@[b0.index(x, y)] {
                        assert(b0.dead_reason(interior@, x, y));
                    }
                }
            }
            assert forall|xx: int, yy: int| #[trigger] b1.passable(xx, yy) == board.passable(xx, yy) by {
            }
            assert forall|k: int, x: int, y: int| 0 <= k < goals@.len() && board.in_grid(x, y) && (#[trigger] board.dist(k, x, y)) is Some
                implies board.gwalk(goals@[k].0 as int, goals@[k].1 as int, x, y, board.dist(k, x, y).unwrap() as int) by {
                assert(board.index(x, y) == b1.index(x, y));
                assert(dists@[k]@[b1.index(x, y)] is Some);
                let g = b1.goal_list()[k];
                assert(b1.gwalk(g.0 as int, g.1 as int, x, y, dists@[k]@[b1.index(x, y)].unwrap() as int));
                let acts = choose|acts: Seq<Action>|
                    #[trigger] b1.passable_walk(g.0 as int, g.1 as int, acts) && acts.len() == dists@[k]@[b1.index(x, y)].unwrap() as int
                        && Self::walk_end(g.0 as int, g.1 as int, acts) == (x, y);
                Self::lemma_pwalk_same(&b1, &board, g.0 as int, g.1 as int, acts);
            }
            assert forall|k: int, acts: Seq<Action>|
                0 <= k < goals@.len() && #[trigger] board.passable_walk(goals@[k].0 as int, goals@[k].1 as int, acts) implies board.dist(
                    k,
                    Self::walk_end(goals@[k].0 as int, goals@[k].1 as int, acts).0,
                    Self::walk_end(goals@[k].0 as int, goals@[k].1 as int, acts).1,
                ) is Some by {
                let g = b1.goal_list()[k];
                Self::lemma_pwalk_same(&b1, &board, g.0 as int, g.1 as int, acts);
                assert(b1.passable_walk(g.0 as int, g.1 as int, acts));
                let e = Self::walk_end(g.0 as int, g.1 as int, acts);
                assert(dists@[k]@[b1.index(e.0, e.1)] is Some);
                assert(board.index(e.0, e.1) == b1.index(e.0, e.1));
            }
        }
        Ok((board, state))
    }

    /// Every character of `t` belongs to the level alphabet and its level
    /// has between one and `MAX_SIDE` rows and at most `MAX_SIDE` columns.
    pub open spec fn text_ok(t: Seq<char>) -> bool {
        &&& forall|i: int| 0 <= i < t.len() ==> level_char(#[trigger] t[i])
        &&& 0 < text_height(t) <= MAX_SIDE
        &&& text_width(t) <= MAX_SIDE
    }

    /// Reads a level from text. `#` is a wall, `@` or `p` the agent, `+` or
    /// `P` the agent on a goal, `$` or `b` a crate, `*` or `B` a crate on a
    /// goal, `.` a goal, and ` `, `-` or `_` floor. Trailing spaces of a line
    /// are dropped; the level is the first run of non-empty lines.
    #[verifier::spinoff_prover]
    #[verifier::rlimit(100)]
    pub fn parse_level_string(level: &String) -> (r: Result<(Board, BoardState), LevelError>)
        ensures
            (r matches Err(e) && e == LevelError::InvalidCharacter) <==> exists|i: int|
                0 <= i < level@.len() && !level_char(#[trigger] level@[i]),
            r matches Ok((b, s)) ==> b.wf() && b.distances_ok() && b.state_wf(&s) && b.goal_list().len() == s@.1.len(),
            r matches Err(e) ==> e != LevelError::Malformed,
            (forall|i: int| 0 <= i < level@.len() ==> level_char(#[trigger] level@[i])) ==> ((r matches Err(e) && e
                == LevelError::Empty) <==> text_height(level@) == 0),
            (forall|i: int| 0 <= i < level@.len() ==> level_char(#[trigger] level@[i])) && text_height(level@) > 0 ==> ((r matches Err(
                e,
            ) && e == LevelError::TooLarge) <==> (text_width(level@) > MAX_SIDE || text_height(level@) > MAX_SIDE)),
            Self::text_ok(level@) ==> ((r matches Err(e) && e == LevelError::NoPlayer) <==> level_marks(level@, 0).len() == 0),
            Self::text_ok(level@) ==> ((r matches Err(e) && e == LevelError::MultiplePlayers) <==> level_marks(level@, 0).len() > 1),
            Self::text_ok(level@) && level_marks(level@, 0).len() == 1 ==> ((r matches Err(e) && e == LevelError::CountMismatch)
                <==> level_marks(level@, 2).len() != level_marks(level@, 1).len()),
            Self::text_ok(level@) && level_marks(level@, 0).len() == 1 && level_marks(level@, 2).len() == level_marks(level@, 1).len()
                ==> forall|w: Seq<bool>| #[trigger] text_walls(level@, w) ==> ((r matches Err(e) && e == LevelError::NotEnclosed)
                <==> escapes(
                text_width(level@),
                text_height(level@),
                w,
                level_marks(level@, 0)[0].0,
                level_marks(level@, 0)[0].1,
            )),
            r matches Ok((b, s)) ==> {
                &&& Self::text_ok(level@)
                &&& b.width() == text_width(level@) && b.height() == text_height(level@)
                &&& forall|x: int, y: int| #[trigger] b.in_grid(x, y) ==> b.wall_at(x, y) == (text_cell(level@, x, y) == '#') && b.crate_in(
                    s@,
                    x,
                    y,
                ) == marks_kind(2, text_cell(level@, x, y))
                &&& same_tiles(b.goal_list(), level_marks(level@, 1))
                &&& s@.0 == level_marks(level@, 0)[0]
                &&& forall|w: Seq<bool>, x: int, y: int| #[trigger] text_walls(level@, w) && b.in_grid(x, y) ==> (
                #[trigger] b.inside_mask()[b.index(x, y)] <==> reaches(
                    text_width(level@),
                    text_height(level@),
                    w,
                    s@.0.0,
                    s@.0.1,
                    x,
                    y,
                ))
                &&& forall|x: int, y: int| #[trigger] b.dead_at(x, y) <==> (b.in_grid(x, y) && b.dead_reason(b.inside_mask(), x, y))
                &&& forall|k: int, x: int, y: int| 0 <= k < b.goal_list().len() && b.in_grid(x, y) && (#[trigger] b.dist(k, x, y)) is Some
                    ==> b.gwalk(b.goal_list()[k].0 as int, b.goal_list()[k].1 as int, x, y, b.dist(k, x, y).unwrap() as int)
                &&& forall|k: int, acts: Seq<Action>|
                    0 <= k < b.goal_list().len() && #[trigger] b.passable_walk(b.goal_list()[k].0 as int, b.goal_list()[k].1 as int, acts)
                        ==> b.dist(
                        k,
                        Self::walk_end(b.goal_list()[k].0 as int, b.goal_list()[k].1 as int, acts).0,
                        Self::walk_end(b.goal_list()[k].0 as int, b.goal_list()[k].1 as int, acts).1,
                    ) is Some
            },
    {
        let text = level.as_str();
        let n = text.unicode_len();
        let mut chars: Vec<char> = Vec::new();
        let mut i: usize = 0;
        while i < n
            invariant
                0 <= i <= n,
                n == level@.len(),
                text@ == level@,
                chars@ == level@.subrange(0, i as int),
                forall|j: int| 0 <= j < i ==> level_char(#[trigger] level@[j]),
            decreases n - i,
        {
            let c = text.get_char(i);
            if !is_level_char(c) {
                return Err(LevelError::InvalidCharacter);
            }
            chars.push(c);
            i += 1;
            assert(chars@ =~= level@.subrange(0, i as int));
        }
        let ghost tx = level@;
        assert(chars@ =~= tx);
        let mut lines: Vec<Vec<char>> = Vec::new();
        let mut cur: Vec<char> = Vec::new();
        let mut i: usize = 0;
        while i < chars.len()
            invariant
                0 <= i <= chars@.len(),
                chars@ == tx,
                lines@.len() + 1 == raw_lines(tx.subrange(0, i as int)).len(),
                forall|k: int| 0 <= k < lines@.len() ==> (#[trigger] lines@[k])@ == trimmed(raw_lines(tx.subrange(0, i as int))[k]),
                cur@ == raw_lines(tx.subrange(0, i as int)).last(),
            decreases chars.len() - i,
        {
            let ghost pre = tx.subrange(0, i as int);
            let ghost ls = raw_lines(pre);
            proof {
                lemma_raw_lines_len(pre);
                assert(tx.subrange(0, i + 1).drop_last() =~= pre);
                assert(tx.subrange(0, i + 1).last() == chars@[i as int]);
            }
            if chars[i] == '\n' {
                let line = trim_end(cur);
                lines.push(line);
                cur = Vec::new();
                proof {
                    assert(raw_lines(tx.subrange(0, i + 1)) == ls.push(Seq::<char>::empty()));
                    assert(cur@ =~= Seq::<char>::empty());
                }
            } else {
                cur.push(chars[i]);
                proof {
                    assert(raw_lines(tx.subrange(0, i + 1)) == ls.update(ls.len() - 1, ls.last().push(chars@[i as int])));
                }
            }
            i += 1;
        }
        let line = trim_end(cur);
        lines.push(line);
        let ghost lt = text_lines(tx);
        proof {
            assert(tx.subrange(0, tx.len() as int) =~= tx);
            lemma_raw_lines_len(tx);
            assert(lines@.len() == lt.len());
            assert forall|k: int| 0 <= k < lines@.len() implies (#[trigger] lines@[k])@ == lt[k] by {
            }
        }
        let mut start: usize = 0;
        while start < lines.len() && lines[start].len() == 0
            invariant
                0 <= start <= lines@.len(),
                lines@.len() == lt.len(),
                forall|k: int| 0 <= k < lines@.len() ==> (#[trigger] lines@[k])@ == lt[k],
                first_filled(lt, start as int) == first_filled(lt, 0),
            decreases lines.len() - start,
        {
            start += 1;
        }
        assert(start == block_start(tx));
        let mut stop: usize = start;
        let mut width: usize = 0;
        while stop < lines.len() && lines[stop].len() > 0
            invariant
                start <= stop <= lines@.len(),
                lines@.len() == lt.len(),
                forall|k: int| 0 <= k < lines@.len() ==> (#[trigger] lines@[k])@ == lt[k],
                forall|k: int| start <= k < stop ==> (#[trigger] lines@[k])@.len() <= width,
                stop > start ==> width >= 1,
                first_blank(lt, stop as int) == first_blank(lt, start as int),
                width == max_len(lt, start as int, stop as int),
            decreases lines.len() - stop,
        {
            if lines[stop].len() > width {
                width = lines[stop].len();
            }
            stop += 1;
        }
        assert(stop == block_end(tx));
        assert(width == text_width(tx));
        if start == stop {
            return Err(LevelError::Empty);
        }
        let height = stop - start;
        if width > MAX_SIDE || height > MAX_SIDE {
            return Err(LevelError::TooLarge);
        }
        proof {
            let w = width as int;
            let h = height as int;
            assert(w * h <= 0xffff * 0xffff) by (nonlinear_arith)
                requires
                    0 <= w <= 0xffff,
                    0 <= h <= 0xffff,
            ;
        }
        let size = width * height;
        let mut walls = filled(false, size);
        let mut crates = filled(false, size);
        let mut goals: Vec<(u32, u32)> = Vec::new();
        let mut players: Vec<(u32, u32)> = Vec::new();
        let mut num_crates: usize = 0;
        let ghost mut crate_set: Set<int> = Set::empty();
        let mut row: usize = 0;
        while row < height
            invariant
                0 <= row <= height,
                height == stop - start,
                stop <= lines@.len(),
                1 <= height <= MAX_SIDE,
                1 <= width <= MAX_SIDE,
                size == width * height,
                walls@.len() == size,
                crates@.len() == size,
                num_crates <= row * width,
                forall|k: int| start <= k < stop ==> (#[trigger] lines@[k])@.len() <= width,
                forall|i: int| row * width <= i < size ==> !#[trigger] walls@[i] && !crates@[i],
                forall|i: int| 0 <= i < size && #[trigger] crates@[i] ==> !walls@[i],
                forall|i: int| #[trigger] crate_set.contains(i) <==> (0 <= i < size && crates@[i]),
                crate_set.finite(),
                crate_set.len() == num_crates,
                forall|j: int| 0 <= j < players@.len() ==> {
                    &&& (#[trigger] players@[j]).0 < width && players@[j].1 < height
                    &&& players@[j].1 * width + players@[j].0 < row * width
                    &&& !walls@[players@[j].1 * width + players@[j].0]
                    &&& !crates@[players@[j].1 * width + players@[j].0]
                },
                forall|j: int| 0 <= j < goals@.len() ==> (#[trigger] goals@[j]).0 < width && goals@[j].1 < height,
                start == block_start(tx),
                width == text_width(tx),
                height == text_height(tx),
                lines@.len() == lt.len(),
                lt == text_lines(tx),
                forall|k: int| 0 <= k < lines@.len() ==> (#[trigger] lines@[k])@ == lt[k],
                same_tiles(players@, rows_marks(tx, 0, row as int)),
                same_tiles(goals@, rows_marks(tx, 1, row as int)),
                num_crates == rows_marks(tx, 2, row as int).len(),
                forall|x: int, y: int| 0 <= x < width && 0 <= y < row ==> #[trigger] walls@[y * width + x] == (text_cell(tx, x, y) == '#')
                    && crates@[y * width + x] == marks_kind(2, text_cell(tx, x, y)),
            decreases height - row,
        {
            let line = &lines[start + row];
            let mut col: usize = 0;
            while col < line.len()
                invariant
                    0 <= row < height,
                    line@.len() <= width,
                    1 <= height <= MAX_SIDE,
                    1 <= width <= MAX_SIDE,
                    size == width * height,
                    walls@.len() == size,
                    crates@.len() == size,
                    0 <= col <= line@.len(),
                    num_crates <= row * width + col,
                    forall|i: int| row * width + col <= i < size ==> !#[trigger] walls@[i] && !crates@[i],
                    forall|i: int| 0 <= i < size && #[trigger] crates@[i] ==> !walls@[i],
                    forall|i: int| #[trigger] crate_set.contains(i) <==> (0 <= i < size && crates@[i]),
                    crate_set.finite(),
                    crate_set.len() == num_crates,
                    forall|j: int| 0 <= j < players@.len() ==> {
                        &&& (#[trigger] players@[j]).0 < width && players@[j].1 < height
                        &&& players@[j].1 * width + players@[j].0 < row * width + col
                        &&& !walls@[players@[j].1 * width + players@[j].0]
                        &&& !crates@[players@[j].1 * width + players@[j].0]
                    },
                    forall|j: int| 0 <= j < goals@.len() ==> (#[trigger] goals@[j]).0 < width && goals@[j].1 < height,
                    start == block_start(tx),
                    width == text_width(tx),
                    height == text_height(tx),
                    line@ == lt[start + row],
                    lt == text_lines(tx),
                    same_tiles(players@, rows_marks(tx, 0, row as int) + row_marks(tx, 0, row as int, col as int)),
                    same_tiles(goals@, rows_marks(tx, 1, row as int) + row_marks(tx, 1, row as int, col as int)),
                    num_crates == (rows_marks(tx, 2, row as int) + row_marks(tx, 2, row as int, col as int)).len(),
                    forall|x: int, y: int| 0 <= x < width && 0 <= y < height && (y < row || (y == row && x < col)) ==> #[trigger] walls@[y
                        * width + x] == (text_cell(tx, x, y) == '#') && crates@[y * width + x] == marks_kind(2, text_cell(tx, x, y)),
                decreases line.len() - col,
            {
                proof {
                    lemma_grid_index(width as int, height as int, col as int, row as int);
                    assert(row * width + col + 1 <= (row + 1) * width) by (nonlinear_arith)
                        requires
                            col < width,
                    ;
                }
                let t = row * width + col;
                let c = line[col];
                let here = (col as u32, row as u32);
                let ghost w0 = walls@;
                let ghost c0 = crates@;
                let ghost players0 = players@;
                let ghost g0 = goals@;
                let ghost nc0 = num_crates;
                proof {
                    assert(text_cell(tx, col as int, row as int) == c);
                }
                if c == '#' {
                    walls.set(t, true);
                } else if c == 'p' || c == '@' {
                    players.push(here);
                } else if c == 'P' || c == '+' {
                    players.push(here);
                    goals.push(here);
                } else if c == 'b' || c == '$' {
                    proof {
                        assert(!crate_set.contains(t as int));
                    }
                    crates.set(t, true);
                    num_crates += 1;
                    proof {
                        crate_set = crate_set.insert(t as int);
                    }
                } else if c == 'B' || c == '*' {
                    proof {
                        assert(!crate_set.contains(t as int));
                    }
                    goals.push(here);
                    crates.set(t, true);
                    num_crates += 1;
                    proof {
                        crate_set = crate_set.insert(t as int);
                    }
                } else if c == '.' {
                    goals.push(here);
                }
                proof {
                    assert forall|j: int| 0 <= j < players@.len() implies {
                        &&& (#[trigger] players@[j]).0 < width && players@[j].1 < height
                        &&& players@[j].1 * width + players@[j].0 < row * width + col + 1
                        &&& !walls@[players@[j].1 * width + players@[j].0]
                        &&& !crates@[players@[j].1 * width + players@[j].0]
                    } by {
                        if j < players0.len() {
                            assert(players@[j] == players0[j]);
                            lemma_grid_index(width as int, height as int, players0[j].0 as int, players0[j].1 as int);
                        } else {
                            assert(players@[j] == here);
                        }
                    }
                    assert forall|j: int| 0 <= j < goals@.len() implies (#[trigger] goals@[j]).0 < width && goals@[j].1 < height by {
                        if j < g0.len() {
                            assert(goals@[j] == g0[j]);
                        }
                    }
                    let ri = row as int;
                    let ci = col as int;
                    lemma_marks_step(tx, 0, ri, ci, players0, players@, here);
                    lemma_marks_step(tx, 1, ri, ci, g0, goals@, here);
                    let m2 = rows_marks(tx, 2, ri) + row_marks(tx, 2, ri, ci + 1);
                    if marks_kind(2, c) {
                        assert(m2 =~= (rows_marks(tx, 2, ri) + row_marks(tx, 2, ri, ci)).push((ci, ri)));
                    } else {
                        assert(m2 =~= rows_marks(tx, 2, ri) + row_marks(tx, 2, ri, ci));
                    }
                    assert forall|x: int, y: int| 0 <= x < width && 0 <= y < height && (y < row || (y == row && x < col + 1)) implies #[trigger] walls@[y
                        * width + x] == (text_cell(tx, x, y) == '#') && crates@[y * width + x] == marks_kind(2, text_cell(tx, x, y)) by {
                        lemma_grid_index(width as int, height as int, x, y);
                        if y * width + x == t {
                            lemma_grid_inj(width as int, x, y, ci, ri);
                        } else {
                            assert(walls@[y * width + x] == w0[y * width + x]);
                            assert(crates@[y * width + x] == c0[y * width + x]);
                            if !(y < row || (y == row && x < col)) {
                                lemma_grid_inj(width as int, x, y, ci, ri);
                                assert(false);
                            }
                        }
                    }
                }
                col += 1;
            }
            proof {
                let ri = row as int;
                let len = line@.len() as int;
                lemma_row_marks_pad(tx, 0, ri, width as int);
                lemma_row_marks_pad(tx, 1, ri, width as int);
                lemma_row_marks_pad(tx, 2, ri, width as int);
                assert(rows_marks(tx, 0, ri + 1) == rows_marks(tx, 0, ri) + row_marks(tx, 0, ri, width as int));
                assert(rows_marks(tx, 1, ri + 1) == rows_marks(tx, 1, ri) + row_marks(tx, 1, ri, width as int));
                assert(rows_marks(tx, 2, ri + 1) == rows_marks(tx, 2, ri) + row_marks(tx, 2, ri, width as int));
                assert forall|x: int, y: int| 0 <= x < width && 0 <= y < row + 1 implies #[trigger] walls@[y * width + x] == (text_cell(
                    tx,
                    x,
                    y,
                ) == '#') && crates@[y * width + x] == marks_kind(2, text_cell(tx, x, y)) by {
                    if y == row && x >= len {
                        lemma_grid_index(width as int, height as int, x, y);
                        assert(row * width + len <= y * width + x) by (nonlinear_arith)
                            requires
                                y == row,
                                x >= len,
                        ;
                        assert(text_cell(tx, x, y) == ' ');
                    }
                }
            }
            proof {
                assert(row * width + line@.len() <= (row + 1) * width) by (nonlinear_arith)
                    requires
                        line@.len() <= width,
                ;
            }
            row += 1;
        }
        if players.len() == 0 {
            return Err(LevelError::NoPlayer);
        } else if players.len() > 1 {
            return Err(LevelError::MultiplePlayers);
        }
        if num_crates != goals.len() {
            return Err(LevelError::CountMismatch);
        }
        proof {
            assert(Self::level_fits(width as int, height as int, walls@, goals@, crates@, players@[0]));
            let w = width as int;
            let h = height as int;
            let m0 = level_marks(tx, 0);
            assert(m0[0].0 == players@[0].0 as int && m0[0].1 == players@[0].1 as int);
            assert(text_walls(tx, walls@)) by {
                assert forall|x: int, y: int| 0 <= x < w && 0 <= y < h implies #[trigger] walls@[y * w + x] == (text_cell(tx, x, y)
                    == '#') by {
                    assert(walls@[y * width + x] == (text_cell(tx, x, y) == '#'));
                }
            }
            assert forall|wm: Seq<bool>| #[trigger] text_walls(tx, wm) implies escapes(w, h, wm, m0[0].0, m0[0].1) == escapes(
                w,
                h,
                walls@,
                players@[0].0 as int,
                players@[0].1 as int,
            ) by {
                assert forall|i: int, j: int| 0 <= i < w && 0 <= j < h implies #[trigger] wm[j * w + i] == walls@[j * w + i] by {
                    assert(wm[j * w + i] == (text_cell(tx, i, j) == '#'));
                    assert(walls@[j * width + i] == (text_cell(tx, i, j) == '#'));
                }
                let (px, py) = (m0[0].0, m0[0].1);
                if escapes(w, h, wm, px, py) {
                    let acts = choose|acts: Seq<Action>| #[trigger] open_walk(w, h, wm, px, py, acts) && on_border(
                        w,
                        h,
                        end_of(px, py, acts).0,
                        end_of(px, py, acts).1,
                    );
                    lemma_open_walk_same(w, h, wm, walls@, px, py, acts);
                }
                if escapes(w, h, walls@, px, py) {
                    let acts = choose|acts: Seq<Action>| #[trigger] open_walk(w, h, walls@, px, py, acts) && on_border(
                        w,
                        h,
                        end_of(px, py, acts).0,
                        end_of(px, py, acts).1,
                    );
                    lemma_open_walk_same(w, h, wm, walls@, px, py, acts);
                }
            }
        }
        let ghost cs = crate_set;
        let ghost cv = crates@;
        let ghost wv = walls@;
        let ghost ng = goals@.len();
        match Board::analyze(width, height, walls, goals, crates, players[0]) {
            Ok(pair) => {
                proof {
                    assert(pair.1.occupied() =~= cs);
                    let b = pair.0;
                    assert forall|x: int, y: int| #[trigger] b.in_grid(x, y) implies b.wall_at(x, y) == (text_cell(tx, x, y) == '#')
                        && b.crate_in(pair.1@, x, y) == marks_kind(2, text_cell(tx, x, y)) by {
                        lemma_grid_index(width as int, height as int, x, y);
                        assert(b.index(x, y) == y * width + x);
                        assert(wv[y * width + x] == (text_cell(tx, x, y) == '#'));
                        assert(cv[y * width + x] == marks_kind(2, text_cell(tx, x, y)));
                        assert(cs.contains(y * width + x) == cv[y * width + x]);
                    }
                    let (w, h) = (width as int, height as int);
                    let (px, py) = (pair.1@.0.0, pair.1@.0.1);
                    assert forall|wm: Seq<bool>, x: int, y: int| #[trigger] text_walls(tx, wm) && b.in_grid(x, y) implies (
                    #[trigger] b.inside_mask()[b.index(x, y)] <==> reaches(w, h, wm, px, py, x, y)) by {
                        assert forall|i: int, j: int| 0 <= i < w && 0 <= j < h implies #[trigger] wm[j * w + i] == wv[j * w + i] by {
                            assert(wm[j * w + i] == (text_cell(tx, i, j) == '#'));
                            assert(wv[j * width + i] == (text_cell(tx, i, j) == '#'));
                        }
                        if reaches(w, h, wm, px, py, x, y) {
                            let acts = choose|acts: Seq<Action>| #[trigger] open_walk(w, h, wm, px, py, acts) && end_of(px, py, acts) == (x, y);
                            lemma_open_walk_same(w, h, wm, wv, px, py, acts);
                            assert(reaches(w, h, wv, px, py, x, y));
                        }
                        if reaches(w, h, wv, px, py, x, y) {
                            let acts = choose|acts: Seq<Action>| #[trigger] open_walk(w, h, wv, px, py, acts) && end_of(px, py, acts) == (x, y);
                            lemma_open_walk_same(w, h, wm, wv, px, py, acts);
                            assert(reaches(w, h, wm, px, py, x, y));
                        }
                    }
                }
                Ok(pair)
            },
            Err(e) => Err(e),
        }
    }

    /// Whether a crate stands on `(x, y)` in `state`.
    pub fn has_crate(&self, state: &BoardState, x: u32, y: u32) -> (r: bool)
        requires
            self.wf(),
            self.state_wf(state),
        ensures
            r == self.crate_in(state@, x as int, y as int),
    {
        self.is_crate(state, x as i64, y as i64)
    }

    /// Whether `(x, y)` is a dead tile.
    pub fn is_dead(&self, x: u32, y: u32) -> (r: bool)
        requires
            self.wf(),
        ensures
            r == self.dead_at(x as int, y as int),
    {
        self.is_dead_tile(x as i64, y as i64)
    }

    /// Every tile of the walk `acts` from `(x, y)`, the first included, is
    /// passable.
    pub open spec fn passable_walk(&self, x: int, y: int, acts: Seq<Action>) -> bool
        decreases acts.len(),
    {
        &&& self.passable(x, y)
        &&& acts.len() > 0 ==> self.passable_walk(x + delta(acts[0]).0, y + delta(acts[0]).1, acts.drop_first())
    }

    /// The tile where the walk `acts` from `(x, y)` ends.
    pub open spec fn walk_end(x: int, y: int, acts: Seq<Action>) -> (int, int)
        decreases acts.len(),
    {
        if acts.len() == 0 {
            (x, y)
        } else {
            Self::walk_end(x + delta(acts[0]).0, y + delta(acts[0]).1, acts.drop_first())
        }
    }

    proof fn lemma_dist_along_walk(&self, k: int, x: int, y: int, acts: Seq<Action>)
        requires
            self.wf(),
            self.distances_ok(),
            0 <= k < self.goal_list().len(),
            self.in_grid(x, y),
            self.dist(k, x, y) is Some,
            self.passable_walk(x, y, acts),
        ensures
            ({
                let e = Self::walk_end(x, y, acts);
                &&& self.dist(k, e.0, e.1) is Some
                &&& self.dist(k, e.0, e.1).unwrap() <= self.dist(k, x, y).unwrap() + acts.len()
            }),
        decreases acts.len(),
    {
        if acts.len() > 0 {
            let a = acts[0];
            let nx = x + delta(a).0;
            let ny = y + delta(a).1;
            assert(self.passable_walk(nx, ny, acts.drop_first()));
            assert(self.passable(nx, ny));
            assert(self.in_grid(nx, ny));
            assert(self.step_bounded(self.goal_dists@[k]@, x, y, a));
            assert(self.dist(k, nx, ny) is Some);
            self.lemma_dist_along_walk(k, nx, ny, acts.drop_first());
            assert(Self::walk_end(x, y, acts) == Self::walk_end(nx, ny, acts.drop_first()));
        }
    }

    /// The distance fields never overestimate: a tile joined to goal `k` by
    /// a walk of `n` steps over passable tiles has a recorded distance of at
    /// most `n` to that goal, so a crate there needs no fewer pushes than
    /// its heuristic term claims.
    pub proof fn lemma_distance_lower_bound(&self, k: int, acts: Seq<Action>)
        requires
            self.wf(),
            self.distances_ok(),
            0 <= k < self.goal_list().len(),
            self.passable_walk(self.goal_list()[k].0 as int, self.goal_list()[k].1 as int, acts),
        ensures
            ({
                let e = Self::walk_end(self.goal_list()[k].0 as int, self.goal_list()[k].1 as int, acts);
                &&& self.dist(k, e.0, e.1) is Some
                &&& self.dist(k, e.0, e.1).unwrap() <= acts.len()
            }),
    {
        let gx = self.goal_list()[k].0 as int;
        let gy = self.goal_list()[k].1 as int;
        assert(self.in_grid(self.goals@[k].0 as int, self.goals@[k].1 as int));
        assert(self.passable(gx, gy));
        self.lemma_dist_along_walk(k, gx, gy, acts);
    }
}

} // verus!
