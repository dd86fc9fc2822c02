//! Robots typing door codes on a numeric keypad through directional keypads.
use vstd::prelude::*;

verus! {

/// A key of the numeric keypad, laid out as 789 / 456 / 123 / gap 0 A.
#[derive(Debug, Clone, Copy, PartialEq, Eq, Structural)]
pub enum NumericKey {
    A,
    Zero,
    One,
    Two,
    Three,
    Four,
    Five,
    Six,
    Seven,
    Eight,
    Nine,
}

/// A key of the directional keypad, laid out as gap ^ A / < v >.
#[derive(Debug, Clone, Copy, PartialEq, Eq, Structural)]
pub enum TClusterKey {
    A,
    Right,
    Down,
    Left,
    Up,
}

/// Column and row of a numeric key (row zero at the top).
pub open spec fn numeric_position(k: NumericKey) -> (int, int) {
    match k {
        NumericKey::A => (2, 3),
        NumericKey::Zero => (1, 3),
        NumericKey::One => (0, 2),
        NumericKey::Two => (1, 2),
        NumericKey::Three => (2, 2),
        NumericKey::Four => (0, 1),
        NumericKey::Five => (1, 1),
        NumericKey::Six => (2, 1),
        NumericKey::Seven => (0, 0),
        NumericKey::Eight => (1, 0),
        NumericKey::Nine => (2, 0),
    }
}

/// The character printed on a numeric key.
pub open spec fn numeric_char(k: NumericKey) -> char {
    match k {
        NumericKey::A => 'A',
        NumericKey::Zero => '0',
        NumericKey::One => '1',
        NumericKey::Two => '2',
        NumericKey::Three => '3',
        NumericKey::Four => '4',
        NumericKey::Five => '5',
        NumericKey::Six => '6',
        NumericKey::Seven => '7',
        NumericKey::Eight => '8',
        NumericKey::Nine => '9',
    }
}

/// A character printed on some numeric key.
pub open spec fn is_numeric_char(c: char) -> bool {
    c == 'A' || ('0' <= c && c <= '9')
}

/// Some numeric key sits at `(x, y)`: the three by four block minus the gap at the bottom left.
pub open spec fn numeric_key_at(x: int, y: int) -> bool {
    0 <= x < 3 && 0 <= y < 4 && !(x == 0 && y == 3)
}

/// Column and row of a directional key.
pub open spec fn cluster_position(k: TClusterKey) -> (int, int) {
    match k {
        TClusterKey::A => (2, 0),
        TClusterKey::Right => (2, 1),
        TClusterKey::Down => (1, 1),
        TClusterKey::Left => (0, 1),
        TClusterKey::Up => (1, 0),
    }
}

/// How a directional key moves an arm, as a column and row change; `A` does not move it.
pub open spec fn cluster_delta(k: TClusterKey) -> (int, int) {
    match k {
        TClusterKey::Right => (1, 0),
        TClusterKey::Down => (0, 1),
        TClusterKey::Left => (-1, 0),
        TClusterKey::Up => (0, -1),
        TClusterKey::A => (0, 0),
    }
}

pub open spec fn abs_diff(a: int, b: int) -> nat {
    if a >= b {
        (a - b) as nat
    } else {
        (b - a) as nat
    }
}

/// Taxicab distance between two numeric keys.
pub open spec fn numeric_distance(a: NumericKey, b: NumericKey) -> nat {
    abs_diff(numeric_position(a).0, numeric_position(b).0) + abs_diff(
        numeric_position(a).1,
        numeric_position(b).1,
    )
}

/// The key reached from `k` by pressing direction `dir`, if any.
pub open spec fn numeric_step(k: NumericKey, dir: TClusterKey) -> Option<NumericKey> {
    let (x, y) = numeric_position(k);
    let (dx, dy) = cluster_delta(dir);
    if dir != TClusterKey::A && numeric_key_at(x + dx, y + dy) {
        Some(choose|n: NumericKey| numeric_position(n) == (x + dx, y + dy))
    } else {
        None
    }
}

/// Every key position on the numeric pad holds exactly one key.
pub proof fn lemma_numeric_positions(x: int, y: int)
    requires
        numeric_key_at(x, y),
    ensures
        exists|n: NumericKey| numeric_position(n) == (x, y),
        forall|a: NumericKey, b: NumericKey|
            numeric_position(a) == (x, y) && numeric_position(b) == (x, y) ==> a == b,
{
    let n = if (x, y) == (2int, 3int) {
        NumericKey::A
    } else if (x, y) == (1int, 3int) {
        NumericKey::Zero
    } else if (x, y) == (0int, 2int) {
        NumericKey::One
    } else if (x, y) == (1int, 2int) {
        NumericKey::Two
    } else if (x, y) == (2int, 2int) {
        NumericKey::Three
    } else if (x, y) == (0int, 1int) {
        NumericKey::Four
    } else if (x, y) == (1int, 1int) {
        NumericKey::Five
    } else if (x, y) == (2int, 1int) {
        NumericKey::Six
    } else if (x, y) == (0int, 0int) {
        NumericKey::Seven
    } else if (x, y) == (1int, 0int) {
        NumericKey::Eight
    } else {
        NumericKey::Nine
    };
    assert(numeric_position(n) == (x, y));
}

impl NumericKey {
    /// The key printed with `c`.
    pub fn from_char(c: char) -> (r: NumericKey)
        requires
            is_numeric_char(c),
        ensures
            numeric_char(r) == c,
    {
        match c {
            'A' => NumericKey::A,
            '0' => NumericKey::Zero,
            '1' => NumericKey::One,
            '2' => NumericKey::Two,
            '3' => NumericKey::Three,
            '4' => NumericKey::Four,
            '5' => NumericKey::Five,
            '6' => NumericKey::Six,
            '7' => NumericKey::Seven,
            '8' => NumericKey::Eight,
            _ => NumericKey::Nine,
        }
    }

    /// Column and row of the key.
    pub fn position(&self) -> (r: (usize, usize))
        ensures
            (r.0 as int, r.1 as int) == numeric_position(*self),
    {
        match self {
            NumericKey::A => (2, 3),
            NumericKey::Zero => (1, 3),
            NumericKey::One => (0, 2),
            NumericKey::Two => (1, 2),
            NumericKey::Three => (2, 2),
            NumericKey::Four => (0, 1),
            NumericKey::Five => (1, 1),
            NumericKey::Six => (2, 1),
            NumericKey::Seven => (0, 0),
            NumericKey::Eight => (1, 0),
            NumericKey::Nine => (2, 0),
        }
    }

    /// The key at a column and row, if there is one.
    pub fn from_position(pos: (i32, i32)) -> (r: Option<NumericKey>)
        ensures
            match r {
                Some(k) => numeric_position(k) == (pos.0 as int, pos.1 as int),
                None => !numeric_key_at(pos.0 as int, pos.1 as int),
            },
    {
        match pos {
            (2, 3) => Some(NumericKey::A),
            (1, 3) => Some(NumericKey::Zero),
            (0, 2) => Some(NumericKey::One),
            (1, 2) => Some(NumericKey::Two),
            (2, 2) => Some(NumericKey::Three),
            (0, 1) => Some(NumericKey::Four),
            (1, 1) => Some(NumericKey::Five),
            (2, 1) => Some(NumericKey::Six),
            (0, 0) => Some(NumericKey::Seven),
            (1, 0) => Some(NumericKey::Eight),
            (2, 0) => Some(NumericKey::Nine),
            _ => None,
        }
    }

    /// The key reached by pressing direction `dir`, if the arm stays on the pad.
    pub fn next(&self, dir: &TClusterKey) -> (r: Option<NumericKey>)
        ensures
            r == numeric_step(*self, *dir),
    {
        let (px, py) = self.position();
        let x = px as i32;
        let y = py as i32;
        let r = match dir {
            TClusterKey::Down => Self::from_position((x, y + 1)),
            TClusterKey::Up => Self::from_position((x, y - 1)),
            TClusterKey::Left => Self::from_position((x - 1, y)),
            TClusterKey::Right => Self::from_position((x + 1, y)),
            _ => None,
        };
        proof {
            let (dx, dy) = cluster_delta(*dir);
            if *dir != TClusterKey::A && numeric_key_at(x + dx, y + dy) {
                lemma_numeric_positions(x + dx, y + dy);
            }
        }
        r
    }
}

impl TClusterKey {
    /// Column and row of the key.
    pub fn position(&self) -> (r: (usize, usize))
        ensures
            (r.0 as int, r.1 as int) == cluster_position(*self),
    {
        match self {
            TClusterKey::A => (2, 0),
            TClusterKey::Right => (2, 1),
            TClusterKey::Down => (1, 1),
            TClusterKey::Left => (0, 1),
            TClusterKey::Up => (1, 0),
        }
    }

    /// The character printed on the key.
    pub fn to_char(&self) -> (r: char)
        ensures
            r == cluster_char(*self),
    {
        match self {
            TClusterKey::A => 'A',
            TClusterKey::Right => '>',
            TClusterKey::Down => 'v',
            TClusterKey::Left => '<',
            TClusterKey::Up => '^',
        }
    }
}

/// The character printed on a directional key.
pub open spec fn cluster_char(k: TClusterKey) -> char {
    match k {
        TClusterKey::A => 'A',
        TClusterKey::Right => '>',
        TClusterKey::Down => 'v',
        TClusterKey::Left => '<',
        TClusterKey::Up => '^',
    }
}

/// `n` copies of `k`.
pub open spec fn repeat(k: TClusterKey, n: nat) -> Seq<TClusterKey> {
    Seq::new(n, |i: int| k)
}

/// The presses that move a directional arm from `start` to `key` and push it: down first,
/// then across, then up, so that the arm never crosses the gap; then `A`.
pub open spec fn key_moves(start: TClusterKey, key: TClusterKey) -> Seq<TClusterKey> {
    let (sx, sy) = cluster_position(start);
    let (ex, ey) = cluster_position(key);
    let up = sy > ey;
    let left = sx > ex;
    let dy = abs_diff(sy, ey);
    let dx = abs_diff(sx, ex);
    (if !up {
        repeat(TClusterKey::Down, dy)
    } else {
        Seq::empty()
    }) + (if left {
        repeat(TClusterKey::Left, dx)
    } else {
        repeat(TClusterKey::Right, dx)
    }) + (if up {
        repeat(TClusterKey::Up, dy)
    } else {
        Seq::empty()
    }) + seq![TClusterKey::A]
}

/// Appends `n` copies of `k`.
fn push_repeated(out: &mut Vec<TClusterKey>, k: TClusterKey, n: usize)
    ensures
        final(out)@ == old(out)@ + repeat(k, n as nat),
{
    let mut i: usize = 0;
    while i < n
        invariant
            i <= n,
            out@ == old(out)@ + repeat(k, i as nat),
        decreases n - i,
    {
        out.push(k);
        i = i + 1;
        assert(out@ =~= old(out)@ + repeat(k, i as nat));
    }
}

fn usize_abs_diff(a: usize, b: usize) -> (r: usize)
    ensures
        r == abs_diff(a as int, b as int),
{
    if a >= b {
        a - b
    } else {
        b - a
    }
}

/// The presses that move a directional arm from `start` to `key` and push it.
pub fn moves_to_key(start: &TClusterKey, key: &TClusterKey) -> (r: Vec<TClusterKey>)
    ensures
        r@ == key_moves(*start, *key),
{
    let mut result: Vec<TClusterKey> = Vec::new();
    let s = start.position();
    let e = key.position();
    let moving_up = s.1 > e.1;
    let moving_left = s.0 > e.0;
    let dy = usize_abs_diff(s.1, e.1);
    let dx = usize_abs_diff(s.0, e.0);
    if !moving_up {
        push_repeated(&mut result, TClusterKey::Down, dy);
    }
    if moving_left {
        push_repeated(&mut result, TClusterKey::Left, dx);
    } else {
        push_repeated(&mut result, TClusterKey::Right, dx);
    }
    if moving_up {
        push_repeated(&mut result, TClusterKey::Up, dy);
    }
    result.push(TClusterKey::A);
    assert(result@ =~= key_moves(*start, *key));
    result
}

/// Pressing `dir` from `start` moves the arm onto a key nearer to `end`.
pub open spec fn leads_toward(start: NumericKey, end: NumericKey, dir: TClusterKey) -> bool {
    match numeric_step(start, dir) {
        Some(n) => numeric_position(n) != (0int, 3int) && numeric_distance(n, end) < numeric_distance(start, end),
        None => false,
    }
}

/// The directions, among up, down, left and right in that order, that lead toward `end`.
pub open spec fn toward_moves(start: NumericKey, end: NumericKey) -> Seq<TClusterKey> {
    (if leads_toward(start, end, TClusterKey::Up) { seq![TClusterKey::Up] } else { Seq::empty() })
    + (if leads_toward(start, end, TClusterKey::Down) { seq![TClusterKey::Down] } else { Seq::empty() })
    + (if leads_toward(start, end, TClusterKey::Left) { seq![TClusterKey::Left] } else { Seq::empty() })
    + (if leads_toward(start, end, TClusterKey::Right) { seq![TClusterKey::Right] } else { Seq::empty() })
}

/// An arm on the numeric keypad.
pub struct NumericKeypadRobot {
    pub position: NumericKey,
}

impl NumericKeypadRobot {
    /// An arm resting on `A`.
    pub fn new() -> (r: NumericKeypadRobot)
        ensures
            r.position == NumericKey::A,
    {
        NumericKeypadRobot { position: NumericKey::A }
    }

    /// Taxicab distance between two keys.
    pub fn manhattan_distance(start: &NumericKey, end: &NumericKey) -> (r: usize)
        ensures
            r == numeric_distance(*start, *end),
    {
        let a = start.position();
        let b = end.position();
        usize_abs_diff(a.0, b.0) + usize_abs_diff(a.1, b.1)
    }

    fn toward(start: &NumericKey, end: &NumericKey, dir: TClusterKey) -> (b: bool)
        ensures
            b == leads_toward(*start, *end, dir),
    {
        match start.next(&dir) {
            Some(n) => {
                let p = n.position();
                !(p.0 == 0 && p.1 == 3) && Self::manhattan_distance(&n, end)
                    < Self::manhattan_distance(start, end)
            },
            None => false,
        }
    }

    /// The directions that bring the arm from `start` closer to `end` without crossing the gap.
    pub fn get_moves_toward(start: &NumericKey, end: &NumericKey) -> (r: Vec<TClusterKey>)
        ensures
            r@ == toward_moves(*start, *end),
    {
        let mut result: Vec<TClusterKey> = Vec::new();
        if Self::toward(start, end, TClusterKey::Up) {
            result.push(TClusterKey::Up);
        }
        if Self::toward(start, end, TClusterKey::Down) {
            result.push(TClusterKey::Down);
        }
        if Self::toward(start, end, TClusterKey::Left) {
            result.push(TClusterKey::Left);
        }
        if Self::toward(start, end, TClusterKey::Right) {
            result.push(TClusterKey::Right);
        }
        assert(result@ =~= toward_moves(*start, *end));
        result
    }
}


/// Every way to walk the numeric arm from `from` to `to` one nearer key at a time, each
/// ending with a press of `A`; moves are tried in the order of `toward_moves`.
pub open spec fn monotone_paths(from: NumericKey, to: NumericKey) -> Seq<Seq<TClusterKey>>
    decreases numeric_distance(from, to), 1nat,
{
    if from == to {
        seq![seq![TClusterKey::A]]
    } else {
        paths_via(from, to, toward_moves(from, to))
    }
}

/// The paths that start with one of `moves`, in order.
pub open spec fn paths_via(from: NumericKey, to: NumericKey, moves: Seq<TClusterKey>) -> Seq<Seq<TClusterKey>>
    decreases numeric_distance(from, to), 0nat, moves.len(),
{
    if moves.len() == 0 {
        Seq::empty()
    } else {
        let m = moves.last();
        let rest = paths_via(from, to, moves.drop_last());
        if leads_toward(from, to, m) {
            match numeric_step(from, m) {
                Some(n) => rest + prefix_all(m, monotone_paths(n, to)),
                None => rest,
            }
        } else {
            rest
        }
    }
}

/// Each path with `m` put in front.
pub open spec fn prefix_all(m: TClusterKey, ps: Seq<Seq<TClusterKey>>) -> Seq<Seq<TClusterKey>> {
    ps.map_values(|p: Seq<TClusterKey>| seq![m] + p)
}

pub open spec fn paths_view(v: Seq<Vec<TClusterKey>>) -> Seq<Seq<TClusterKey>> {
    v.map_values(|p: Vec<TClusterKey>| p@)
}

/// The presses that an operator types so that a directional arm on `start` types the
/// presses moving toward `end` through `n` more layers of directional arms.
pub open spec fn expand(start: TClusterKey, end: TClusterKey, n: nat) -> Seq<char>
    decreases n, 0nat,
{
    if n == 0 {
        key_moves(start, end).map_values(|k: TClusterKey| cluster_char(k))
    } else {
        expand_all(key_moves(start, end), end, (n - 1) as nat)
    }
}

/// The expansions of `keys`, the last key's first.
pub open spec fn expand_all(keys: Seq<TClusterKey>, end: TClusterKey, n: nat) -> Seq<char>
    decreases n, 1nat, keys.len(),
{
    if keys.len() == 0 {
        Seq::empty()
    } else {
        expand(keys.last(), end, n) + expand_all(keys.drop_last(), end, n)
    }
}

/// What the operator types for a whole numeric path.
pub open spec fn path_presses(path: Seq<TClusterKey>) -> Seq<char>
    decreases path.len(),
{
    if path.len() == 0 {
        Seq::empty()
    } else {
        path_presses(path.drop_last()) + expand(TClusterKey::A, path.last(), 1)
    }
}

impl NumericKeypadRobot {
    fn paths_between(from: NumericKey, to: NumericKey) -> (r: Vec<Vec<TClusterKey>>)
        ensures
            paths_view(r@) == monotone_paths(from, to),
        decreases numeric_distance(from, to),
    {
        if from == to {
            let mut r: Vec<Vec<TClusterKey>> = Vec::new();
            let mut a: Vec<TClusterKey> = Vec::new();
            a.push(TClusterKey::A);
            assert(a@ =~= seq![TClusterKey::A]);
            r.push(a);
            assert(paths_view(r@) =~= seq![seq![TClusterKey::A]]);
            return r;
        }
        let moves = Self::get_moves_toward(&from, &to);
        let mut out: Vec<Vec<TClusterKey>> = Vec::new();
        let mut k: usize = 0;
        while k < moves.len()
            invariant
                from != to,
                moves@ == toward_moves(from, to),
                k <= moves@.len(),
                paths_view(out@) == paths_via(from, to, moves@.take(k as int)),
            decreases moves@.len() - k,
        {
            let m = moves[k];
            assert(moves@.take(k + 1).drop_last() =~= moves@.take(k as int));
            assert(moves@.take(k + 1).last() == m);
            assert(leads_toward(from, to, m)) by {
                reveal_with_fuel(toward_moves, 1);
            }
            let n = match from.next(&m) {
                Some(n) => n,
                None => {
                    assert(false);
                    from
                },
            };
            let sub = Self::paths_between(n, to);
            let mut j: usize = 0;
            let ghost base = paths_view(out@);
            while j < sub.len()
                invariant
                    j <= sub@.len(),
                    paths_view(out@) == base + prefix_all(m, paths_view(sub@).take(j as int)),
                decreases sub@.len() - j,
            {
                let mut p: Vec<TClusterKey> = Vec::new();
                p.push(m);
                let mut q: usize = 0;
                let s = &sub[j];
                while q < s.len()
                    invariant
                        q <= s@.len(),
                        p@ == seq![m] + s@.take(q as int),
                    decreases s@.len() - q,
                {
                    p.push(s[q]);
                    q = q + 1;
                    assert(p@ =~= seq![m] + s@.take(q as int));
                }
                assert(s@.take(q as int) =~= s@);
                let ghost before = out@;
                out.push(p);
                assert(paths_view(out@) =~= paths_view(before).push(seq![m] + s@));
                j = j + 1;
                assert(prefix_all(m, paths_view(sub@).take(j as int)) =~= prefix_all(m, paths_view(sub@).take(j - 1)).push(seq![m] + s@));
            }
            assert(paths_view(sub@).take(j as int) =~= paths_view(sub@));
            k = k + 1;
        }
        assert(moves@.take(k as int) =~= moves@);
        out
    }

    /// Every shortest way to move the arm to `digit` and press it, in order.
    pub fn moves_to_digit(&self, digit: &NumericKey) -> (r: Vec<Vec<TClusterKey>>)
        ensures
            paths_view(r@) == monotone_paths(self.position, *digit),
    {
        Self::paths_between(self.position, *digit)
    }
}

/// The presses typed so that an arm on `start` moves toward `end` through `n_robots` layers.
pub fn enter_direction(start: &TClusterKey, end: &TClusterKey, n_robots: usize) -> (r: Vec<char>)
    ensures
        r@ == expand(*start, *end, n_robots as nat),
    decreases n_robots,
{
    let keys = moves_to_key(start, end);
    let mut result: Vec<char> = Vec::new();
    let mut k: usize = 0;
    if n_robots == 0 {
        while k < keys.len()
            invariant
                keys@ == key_moves(*start, *end),
                k <= keys@.len(),
                result@ == keys@.take(k as int).map_values(|c: TClusterKey| cluster_char(c)),
            decreases keys@.len() - k,
        {
            result.push(keys[k].to_char());
            k = k + 1;
            assert(result@ =~= keys@.take(k as int).map_values(|c: TClusterKey| cluster_char(c)));
        }
        assert(keys@.take(k as int) =~= keys@);
        return result;
    }
    while k < keys.len()
        invariant
            n_robots > 0,
            keys@ == key_moves(*start, *end),
            k <= keys@.len(),
            result@ == expand_all(keys@.take(k as int), *end, (n_robots - 1) as nat),
        decreases keys@.len() - k,
    {
        let sub = enter_direction(&keys[k], end, n_robots - 1);
        let mut joined = sub;
        let mut q: usize = 0;
        let ghost head = joined@;
        while q < result.len()
            invariant
                q <= result@.len(),
                joined@ == head + result@.take(q as int),
            decreases result@.len() - q,
        {
            joined.push(result[q]);
            q = q + 1;
            assert(joined@ =~= head + result@.take(q as int));
        }
        assert(result@.take(q as int) =~= result@);
        assert(keys@.take(k + 1).drop_last() =~= keys@.take(k as int));
        result = joined;
        k = k + 1;
    }
    assert(keys@.take(k as int) =~= keys@);
    result
}

impl NumericKeypadRobot {
    /// Types `digit`: of the shortest arm paths to it, the first whose presses through one
    /// directional layer are fewest; the arm then rests on `digit`.
    pub fn enter_digit(&mut self, digit: &NumericKey) -> (r: Vec<char>)
        ensures
            final(self).position == *digit,
            monotone_paths(old(self).position, *digit).len() > 0 ==> exists|i: int|
                0 <= i < monotone_paths(old(self).position, *digit).len() && r@ == path_presses(
                    #[trigger] monotone_paths(old(self).position, *digit)[i],
                ) && forall|j: int|
                    0 <= j < monotone_paths(old(self).position, *digit).len() ==> r@.len() <= path_presses(
                        #[trigger] monotone_paths(old(self).position, *digit)[j],
                    ).len(),
    {
        let paths = self.moves_to_digit(digit);
        let ghost ps = monotone_paths(self.position, *digit);
        let mut result: Vec<char> = Vec::new();
        let ghost mut best: int = -1;
        let mut i: usize = 0;
        while i < paths.len()
            invariant
                paths_view(paths@) == ps,
                i <= paths@.len(),
                i == 0 ==> best == -1,
                i > 0 ==> 0 <= best < i && result@ == path_presses(ps[best]) && forall|j: int|
                    0 <= j < i ==> result@.len() <= path_presses(#[trigger] ps[j]).len(),
            decreases paths@.len() - i,
        {
            let path = &paths[i];
            assert(path@ == ps[i as int]);
            let mut temp: Vec<char> = Vec::new();
            let mut q: usize = 0;
            while q < path.len()
                invariant
                    q <= path@.len(),
                    temp@ == path_presses(path@.take(q as int)),
                decreases path@.len() - q,
            {
                let e = enter_direction(&TClusterKey::A, &path[q], 1);
                let mut z: usize = 0;
                let ghost head = temp@;
                while z < e.len()
                    invariant
                        z <= e@.len(),
                        temp@ == head + e@.take(z as int),
                    decreases e@.len() - z,
                {
                    temp.push(e[z]);
                    z = z + 1;
                    assert(temp@ =~= head + e@.take(z as int));
                }
                assert(e@.take(z as int) =~= e@);
                assert(path@.take(q + 1).drop_last() =~= path@.take(q as int));
                q = q + 1;
            }
            assert(path@.take(q as int) =~= path@);
            if i == 0 || temp.len() < result.len() {
                result = temp;
                proof {
                    best = i as int;
                }
            }
            i = i + 1;
        }
        self.position = *digit;
        result
    }
}

} // verus!
