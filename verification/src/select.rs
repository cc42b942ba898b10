//! The greedy path selector: configuration, candidate scoring against the
//! working intensity buffer, and the wrap-by-wrap selection loop that
//! produces the peg path.

use vstd::prelude::*;
use crate::geometry::Point;
use crate::lines::LineID;
use crate::lines::LineTable;
use crate::lines::line_id;
use crate::lines::get_line_id;
use crate::lines::spec_lookup;
use crate::lines::table_matches;
use crate::lines::lemma_segment_in_image;

verus! {

/// The parameters of a run, fixed once validated.
#[derive(Debug, PartialEq, Eq, Structural, Clone, Copy)]
pub struct Config {
    /// Side length of the square image, in pixels.
    pub image_size: usize,
    /// Number of chords the selector commits.
    pub wraps: usize,
    /// Number of pegs on the ring.
    pub circle_points: usize,
    /// Smallest allowed circular index distance between consecutive pegs.
    pub minimum_difference: usize,
    /// Amount added to the working buffer along each committed chord.
    pub brightness_factor: usize,
}

/// Rejection of an invalid parameter set.
#[derive(Debug, PartialEq, Eq, Structural, Clone, Copy)]
pub enum ConfigError {
    /// The image side length must be positive.
    ZeroImageSize,
    /// At least one wrap must be requested.
    ZeroWraps,
    /// A ring needs at least three pegs.
    TooFewCirclePoints,
    /// The distance constraint must be positive.
    ZeroMinimumDifference,
    /// A minimum difference of half the ring or more forbids every chord.
    MinimumDifferenceTooLarge,
    /// The brightness factor must be positive.
    ZeroBrightnessFactor,
}

/// The parameter constraints a run demands: every parameter positive, at
/// least three pegs, and a distance constraint small enough to leave
/// eligible candidates.
pub open spec fn config_valid(c: Config) -> bool {
    &&& 1 <= c.image_size
    &&& 1 <= c.wraps
    &&& 3 <= c.circle_points
    &&& 1 <= c.minimum_difference
    &&& 2 * c.minimum_difference < c.circle_points
    &&& 1 <= c.brightness_factor
}

/// Machine bounds under which all arithmetic of a run fits the native
/// integer types.
pub open spec fn config_sized(c: Config) -> bool {
    &&& c.image_size <= 32767
    &&& c.circle_points <= 32767
    &&& c.minimum_difference <= 32767
    &&& c.wraps <= 0x7fffffff
}

/// A configuration the engine accepts.
pub open spec fn config_wf(c: Config) -> bool {
    config_valid(c) && config_sized(c)
}

impl Config {
    /// Validates the parameters and builds the configuration; reports the
    /// first violated constraint otherwise.
    pub fn new(
        image_size: usize,
        wraps: usize,
        circle_points: usize,
        minimum_difference: usize,
        brightness_factor: usize,
    ) -> (r: Result<Config, ConfigError>)
        requires
            image_size <= 32767,
            circle_points <= 32767,
            minimum_difference <= 32767,
            wraps <= 0x7fffffff,
        ensures
            r == (if image_size < 1 {
                Result::<Config, ConfigError>::Err(ConfigError::ZeroImageSize)
            } else if wraps < 1 {
                Result::<Config, ConfigError>::Err(ConfigError::ZeroWraps)
            } else if circle_points < 3 {
                Result::<Config, ConfigError>::Err(ConfigError::TooFewCirclePoints)
            } else if minimum_difference < 1 {
                Result::<Config, ConfigError>::Err(ConfigError::ZeroMinimumDifference)
            } else if 2 * minimum_difference >= circle_points {
                Result::<Config, ConfigError>::Err(ConfigError::MinimumDifferenceTooLarge)
            } else if brightness_factor < 1 {
                Result::<Config, ConfigError>::Err(ConfigError::ZeroBrightnessFactor)
            } else {
                Result::<Config, ConfigError>::Ok(
                    Config {
                        image_size,
                        wraps,
                        circle_points,
                        minimum_difference,
                        brightness_factor,
                    },
                )
            }),
            r is Ok ==> config_wf(r->Ok_0),
    {
        if image_size < 1 {
            Err(ConfigError::ZeroImageSize)
        } else if wraps < 1 {
            Err(ConfigError::ZeroWraps)
        } else if circle_points < 3 {
            Err(ConfigError::TooFewCirclePoints)
        } else if minimum_difference < 1 {
            Err(ConfigError::ZeroMinimumDifference)
        } else if 2 * minimum_difference >= circle_points {
            Err(ConfigError::MinimumDifferenceTooLarge)
        } else if brightness_factor < 1 {
            Err(ConfigError::ZeroBrightnessFactor)
        } else {
            Ok(Config { image_size, wraps, circle_points, minimum_difference, brightness_factor })
        }
    }
}

/// The failure of a run after validation.
#[derive(Debug, PartialEq, Eq, Structural, Clone, Copy)]
pub enum RunError {
    /// The input pixel buffer does not hold exactly `image_size * image_size` bytes.
    WrongImageSize,
    /// A wrap found no peg satisfying the exclusion rules: every remaining
    /// chord from the current peg is either too short or already used.
    NoEligibleCandidate,
}

/// The circular index distance between pegs `a` and `b` on a ring of `n`:
/// the smaller of the two arc lengths.
pub open spec fn circ_dist(a: int, b: int, n: int) -> int {
    let d = if a >= b {
        a - b
    } else {
        b - a
    };
    if d <= n - d {
        d
    } else {
        n - d
    }
}

/// Candidate peg `c` may be chosen from `current`: a different peg, at
/// circular distance at least `m`, whose chord is not yet used.
pub open spec fn eligible(current: int, c: int, n: int, m: int, used: Seq<LineID>) -> bool {
    &&& 0 <= c < n
    &&& c != current
    &&& circ_dist(current, c, n) >= m
    &&& !used.contains(line_id(current as u16, c as u16))
}

/// One scoring step: the running weight is charged the pixel's value,
/// floored at zero.
pub open spec fn charge(w: int, px: int) -> int {
    if w - px >= 0 {
        w - px
    } else {
        0
    }
}

/// Charges every pixel of `seg` in order against a running weight `w`.
pub open spec fn score_fold(seg: Seq<Point>, buf: Seq<u8>, size: int, w: int) -> int
    decreases seg.len(),
{
    if seg.len() == 0 {
        w
    } else {
        score_fold(
            seg.drop_first(),
            buf,
            size,
            charge(w, buf[size * (seg[0].y as int) + (seg[0].x as int)] as int),
        )
    }
}

/// The score of a chord against the working buffer: start from
/// `255 * len`, charge every pixel on the chord (floored at zero), and
/// divide by the chord length — the average remaining potential.
pub open spec fn seg_score(seg: Seq<Point>, buf: Seq<u8>, size: int) -> int
    recommends
        seg.len() >= 1,
{
    score_fold(seg, buf, size, 255 * (seg.len() as int)) / (seg.len() as int)
}

/// Computes the score of a segment against the working buffer.
pub fn score_line(seg: &Vec<Point>, buf: &Vec<u8>, size: usize) -> (r: usize)
    requires
        1 <= size <= 32767,
        buf@.len() == size * size,
        1 <= seg@.len() <= 2 * size,
        forall|k: int| 0 <= k < seg@.len() ==> (#[trigger] seg@[k]).x < size && seg@[k].y < size,
    ensures
        r == seg_score(seg@, buf@, size as int),
{
    let len: usize = seg.len();
    let mut weight: usize = 255 * len;
    let mut i: usize = 0;
    proof {
        assert(seg@.skip(0) =~= seg@);
    }
    while i < len
        invariant
            len == seg@.len(),
            1 <= size <= 32767,
            1 <= len <= 2 * size,
            buf@.len() == size * size,
            forall|k: int|
                0 <= k < seg@.len() ==> (#[trigger] seg@[k]).x < size && seg@[k].y < size,
            0 <= i <= len,
            weight <= 255 * len,
            score_fold(seg@, buf@, size as int, 255 * len) == score_fold(
                seg@.skip(i as int),
                buf@,
                size as int,
                weight as int,
            ),
        decreases len - i,
    {
        let p: Point = seg[i];
        proof {
            assert(size * (p.y as int) + (p.x as int) < size * size) by (nonlinear_arith)
                requires
                    0 <= p.y < size,
                    0 <= p.x < size,
            ;
            assert(size * (p.y as int) >= 0) by (nonlinear_arith)
                requires
                    0 <= p.y,
                    0 <= size,
            ;
            assert(size * size <= 32767 * 32767) by (nonlinear_arith)
                requires
                    0 <= size <= 32767,
            ;
        }
        let idx: usize = size * (p.y as usize) + (p.x as usize);
        let px: u8 = buf[idx];
        let ghost w0: int = weight as int;
        if weight >= px as usize {
            weight = weight - px as usize;
        } else {
            weight = 0;
        }
        proof {
            assert(weight as int == charge(w0, buf@[idx as int] as int));
            assert(seg@.skip(i as int).drop_first() =~= seg@.skip(i + 1));
            assert(seg@.skip(i as int)[0] == seg@[i as int]);
        }
        i = i + 1;
    }
    proof {
        assert(seg@.skip(len as int) =~= Seq::<Point>::empty());
    }
    weight / len
}

/// One brightening step: the pixel value raised by `bf`, clamped at 255.
pub open spec fn brighten_px(v: int, bf: int) -> int {
    if v + bf <= 255 {
        v + bf
    } else {
        255
    }
}

/// Brightens every pixel of `seg` in order in the buffer, clamping at 255.
pub open spec fn brighten_fold(buf: Seq<u8>, seg: Seq<Point>, bf: int, size: int) -> Seq<u8>
    decreases seg.len(),
{
    if seg.len() == 0 {
        buf
    } else {
        let idx = size * (seg[0].y as int) + (seg[0].x as int);
        brighten_fold(
            buf.update(idx, brighten_px(buf[idx] as int, bf) as u8),
            seg.drop_first(),
            bf,
            size,
        )
    }
}

/// Commits a chosen chord: every pixel on the segment is brightened by the
/// brightness factor, clamped at 255. No value ever decreases.
fn apply_line(buf: &mut Vec<u8>, seg: &Vec<Point>, bf: usize, size: usize)
    requires
        1 <= size <= 32767,
        old(buf)@.len() == size * size,
        forall|k: int| 0 <= k < seg@.len() ==> (#[trigger] seg@[k]).x < size && seg@[k].y < size,
    ensures
        final(buf)@ == brighten_fold(old(buf)@, seg@, bf as int, size as int),
        final(buf)@.len() == old(buf)@.len(),
        forall|j: int| 0 <= j < old(buf)@.len() ==> final(buf)@[j] >= old(buf)@[j],
{
    let len: usize = seg.len();
    let mut i: usize = 0;
    proof {
        assert(seg@.skip(0) =~= seg@);
    }
    while i < len
        invariant
            len == seg@.len(),
            1 <= size <= 32767,
            buf@.len() == size * size,
            old(buf)@.len() == size * size,
            forall|k: int|
                0 <= k < seg@.len() ==> (#[trigger] seg@[k]).x < size && seg@[k].y < size,
            0 <= i <= len,
            brighten_fold(old(buf)@, seg@, bf as int, size as int) == brighten_fold(
                buf@,
                seg@.skip(i as int),
                bf as int,
                size as int,
            ),
            forall|j: int| 0 <= j < old(buf)@.len() ==> buf@[j] >= old(buf)@[j],
        decreases len - i,
    {
        let p: Point = seg[i];
        proof {
            assert(size * (p.y as int) + (p.x as int) < size * size) by (nonlinear_arith)
                requires
                    0 <= p.y < size,
                    0 <= p.x < size,
            ;
            assert(size * (p.y as int) >= 0) by (nonlinear_arith)
                requires
                    0 <= p.y,
                    0 <= size,
            ;
            assert(size * size <= 32767 * 32767) by (nonlinear_arith)
                requires
                    0 <= size <= 32767,
            ;
        }
        let idx: usize = size * (p.y as usize) + (p.x as usize);
        let v: u8 = buf[idx];
        let nv: u8 = if bf >= 255 {
            255
        } else if (v as usize) + bf <= 255 {
            (v as usize + bf) as u8
        } else {
            255
        };
        let ghost before: Seq<u8> = buf@;
        buf.set(idx, nv);
        proof {
            assert(nv as int == brighten_px(before[idx as int] as int, bf as int));
            assert(seg@.skip(i as int).drop_first() =~= seg@.skip(i + 1));
            assert(seg@.skip(i as int)[0] == seg@[i as int]);
            assert forall|j: int| 0 <= j < old(buf)@.len() implies buf@[j] >= old(buf)@[j] by {
                if j != idx {
                    assert(buf@[j] == before[j]);
                }
            }
        }
        i = i + 1;
    }
    proof {
        assert(seg@.skip(len as int) =~= Seq::<Point>::empty());
    }
}

/// The score the selector assigns to candidate `c` seen from `current`: the
/// stored chord between them, scored against the working buffer.
pub open spec fn candidate_score(t: LineTable, buf: Seq<u8>, current: int, c: int, size: int) -> int {
    seg_score(spec_lookup(t, line_id(current as u16, c as u16)), buf, size)
}

/// `w` is the greedy choice from `current`: eligible, of maximal score
/// among all eligible candidates, and the lowest-indexed one achieving that
/// score.
pub open spec fn is_greedy_choice(
    t: LineTable,
    buf: Seq<u8>,
    used: Seq<LineID>,
    current: int,
    w: int,
    cfg: Config,
) -> bool {
    let n = cfg.circle_points as int;
    let m = cfg.minimum_difference as int;
    let size = cfg.image_size as int;
    &&& eligible(current, w, n, m, used)
    &&& forall|c: int| #[trigger]
        eligible(current, c, n, m, used) ==> candidate_score(t, buf, current, c, size)
            <= candidate_score(t, buf, current, w, size)
    &&& forall|c: int| #[trigger]
        eligible(current, c, n, m, used) && candidate_score(t, buf, current, c, size)
            == candidate_score(t, buf, current, w, size) ==> w <= c
}

/// Scans the used-line list for an identifier.
fn used_contains(used: &Vec<LineID>, id: LineID) -> (r: bool)
    ensures
        r == used@.contains(id),
{
    let mut i: usize = 0;
    while i < used.len()
        invariant
            0 <= i <= used@.len(),
            forall|j: int| 0 <= j < i ==> used@[j] != id,
        decreases used@.len() - i,
    {
        if used[i] == id {
            return true;
        }
        i = i + 1;
    }
    false
}

/// Scans all pegs for the greedy choice from `current`: the first eligible
/// candidate of maximal score. Answers nothing exactly when no candidate is
/// eligible.
fn best_candidate(
    cfg: &Config,
    buf: &Vec<u8>,
    coords: &Vec<Point>,
    table: &LineTable,
    used: &Vec<LineID>,
    current: u16,
) -> (r: Option<u16>)
    requires
        config_wf(*cfg),
        table_matches(*table, coords@),
        coords@.len() == cfg.circle_points,
        forall|i: int|
            0 <= i < coords@.len() ==> (#[trigger] coords@[i]).x < cfg.image_size
                && coords@[i].y < cfg.image_size,
        buf@.len() == cfg.image_size * cfg.image_size,
        (current as int) < cfg.circle_points,
    ensures
        match r {
            Some(w) => (w as int) < cfg.circle_points && is_greedy_choice(
                *table,
                buf@,
                used@,
                current as int,
                w as int,
                *cfg,
            ),
            None => forall|c: int|
                !eligible(
                    current as int,
                    c,
                    cfg.circle_points as int,
                    cfg.minimum_difference as int,
                    used@,
                ),
        },
{
    let n: usize = cfg.circle_points;
    let m: usize = cfg.minimum_difference;
    let size: usize = cfg.image_size;
    let mut best: Option<u16> = None;
    let mut best_score: usize = 0;
    let mut c: usize = 0;
    while c < n
        invariant
            config_wf(*cfg),
            n == cfg.circle_points,
            m == cfg.minimum_difference,
            size == cfg.image_size,
            table_matches(*table, coords@),
            coords@.len() == n,
            forall|i: int|
                0 <= i < coords@.len() ==> (#[trigger] coords@[i]).x < size && coords@[i].y
                    < size,
            buf@.len() == size * size,
            (current as int) < n,
            0 <= c <= n,
            match best {
                None => forall|k: int|
                    0 <= k < c ==> !eligible(current as int, k, n as int, m as int, used@),
                Some(w) => {
                    &&& (w as int) < c
                    &&& eligible(current as int, w as int, n as int, m as int, used@)
                    &&& best_score == candidate_score(
                        *table,
                        buf@,
                        current as int,
                        w as int,
                        size as int,
                    )
                    &&& forall|k: int|
                        0 <= k < c && #[trigger] eligible(
                            current as int,
                            k,
                            n as int,
                            m as int,
                            used@,
                        ) ==> candidate_score(*table, buf@, current as int, k, size as int)
                            <= best_score
                    &&& forall|k: int|
                        0 <= k < c && #[trigger] eligible(
                            current as int,
                            k,
                            n as int,
                            m as int,
                            used@,
                        ) && candidate_score(*table, buf@, current as int, k, size as int)
                            == best_score ==> w <= k
                },
            },
        decreases n - c,
    {
        if c != current as usize {
            let d: usize = if c >= current as usize {
                c - current as usize
            } else {
                current as usize - c
            };
            if d >= m && n - d >= m {
                let id: LineID = get_line_id(current, c as u16);
                if !used_contains(used, id) {
                    proof {
                        assert(circ_dist(current as int, c as int, n as int) >= m);
                        assert(eligible(current as int, c as int, n as int, m as int, used@));
                        lemma_segment_in_image(
                            *table,
                            coords@,
                            size as int,
                            if current as int <= c as int {
                                current as int
                            } else {
                                c as int
                            },
                            if current as int <= c as int {
                                c as int
                            } else {
                                current as int
                            },
                        );
                    }
                    let seg: &Vec<Point> = table.get(id);
                    let s: usize = score_line(seg, buf, size);
                    proof {
                        assert(s == candidate_score(
                            *table,
                            buf@,
                            current as int,
                            c as int,
                            size as int,
                        ));
                    }
                    match best {
                        None => {
                            best = Some(c as u16);
                            best_score = s;
                        },
                        Some(_) => {
                            if s > best_score {
                                best = Some(c as u16);
                                best_score = s;
                            }
                        },
                    }
                }
            }
        }
        c = c + 1;
    }
    best
}


/// The canonical identifiers of the consecutive chords of a path.
pub open spec fn path_ids(p: Seq<u16>) -> Seq<LineID> {
    if p.len() == 0 {
        Seq::empty()
    } else {
        Seq::new((p.len() - 1) as nat, |i: int| line_id(p[i], p[i + 1]))
    }
}

/// The working buffer after the chords of `p` have been committed in order.
pub open spec fn buffer_after(
    init: Seq<u8>,
    t: LineTable,
    p: Seq<u16>,
    bf: int,
    size: int,
) -> Seq<u8>
    decreases p.len(),
{
    if p.len() <= 1 {
        init
    } else {
        brighten_fold(
            buffer_after(init, t, p.drop_last(), bf, size),
            spec_lookup(t, line_id(p[p.len() - 2], p[p.len() - 1])),
            bf,
            size,
        )
    }
}

/// Every step of `p` after the first is the greedy choice against the
/// working buffer and the used-line set left by the steps before it.
pub open spec fn greedy_path(init: Seq<u8>, t: LineTable, p: Seq<u16>, cfg: Config) -> bool {
    &&& p.len() >= 1
    &&& p[0] == 0
    &&& forall|i: int|
        1 <= i < p.len() ==> is_greedy_choice(
            t,
            buffer_after(
                init,
                t,
                #[trigger] p.take(i),
                cfg.brightness_factor as int,
                cfg.image_size as int,
            ),
            path_ids(p.take(i)),
            p[i - 1] as int,
            p[i] as int,
            cfg,
        )
}

/// Runs the greedy selection: starting at peg 0, commits `wraps` chords,
/// each the greedy choice from the peg the previous chord ended at, and
/// brightens the working buffer along each committed chord. Fails exactly
/// when some wrap finds no eligible candidate.
pub fn select_path(
    cfg: &Config,
    buffer: &mut Vec<u8>,
    coords: &Vec<Point>,
    lines: &LineTable,
) -> (r: Result<Vec<u16>, RunError>)
    requires
        config_wf(*cfg),
        table_matches(*lines, coords@),
        coords@.len() == cfg.circle_points,
        forall|i: int|
            0 <= i < coords@.len() ==> (#[trigger] coords@[i]).x < cfg.image_size
                && coords@[i].y < cfg.image_size,
        old(buffer)@.len() == cfg.image_size * cfg.image_size,
    ensures
        match r {
            Ok(path) => {
                &&& path@.len() == cfg.wraps + 1
                &&& path@[0] == 0
                &&& forall|i: int|
                    0 <= i < path@.len() ==> (#[trigger] path@[i]) < cfg.circle_points
                &&& greedy_path(old(buffer)@, *lines, path@, *cfg)
                &&& path_ids(path@).len() == cfg.wraps
                &&& path_ids(path@).no_duplicates()
                &&& forall|i: int|
                    1 <= i < path@.len() ==> (#[trigger] path@[i]) != path@[i - 1] && circ_dist(
                        path@[i - 1] as int,
                        path@[i] as int,
                        cfg.circle_points as int,
                    ) >= cfg.minimum_difference
                &&& final(buffer)@ == buffer_after(
                    old(buffer)@,
                    *lines,
                    path@,
                    cfg.brightness_factor as int,
                    cfg.image_size as int,
                )
            },
            Err(e) => {
                &&& e == RunError::NoEligibleCandidate
                &&& exists|p: Seq<u16>|
                    {
                        &&& #[trigger] greedy_path(old(buffer)@, *lines, p, *cfg)
                        &&& p.len() <= cfg.wraps
                        &&& forall|c: int|
                            !(#[trigger] eligible(
                                p[p.len() - 1] as int,
                                c,
                                cfg.circle_points as int,
                                cfg.minimum_difference as int,
                                path_ids(p),
                            ))
                        &&& final(buffer)@ == buffer_after(
                            old(buffer)@,
                            *lines,
                            p,
                            cfg.brightness_factor as int,
                            cfg.image_size as int,
                        )
                    }
            },
        },
{
    let ghost init: Seq<u8> = buffer@;
    let n: usize = cfg.circle_points;
    let size: usize = cfg.image_size;
    let bf: usize = cfg.brightness_factor;
    let mut path: Vec<u16> = Vec::new();
    path.push(0u16);
    let mut used: Vec<LineID> = Vec::new();
    let mut current: u16 = 0;
    let mut w: usize = 0;
    proof {
        assert(path_ids(path@) =~= Seq::<LineID>::empty());
        assert(used@ =~= Seq::<LineID>::empty());
    }
    while w < cfg.wraps
        invariant
            config_wf(*cfg),
            n == cfg.circle_points,
            size == cfg.image_size,
            bf == cfg.brightness_factor,
            table_matches(*lines, coords@),
            coords@.len() == n,
            forall|i: int|
                0 <= i < coords@.len() ==> (#[trigger] coords@[i]).x < size && coords@[i].y
                    < size,
            0 <= w <= cfg.wraps,
            path@.len() == w + 1,
            path@[0] == 0,
            forall|i: int| 0 <= i < path@.len() ==> (#[trigger] path@[i]) < n,
            (current as int) == path@[path@.len() - 1],
            (current as int) < n,
            greedy_path(init, *lines, path@, *cfg),
            used@ == path_ids(path@),
            used@.no_duplicates(),
            forall|i: int|
                1 <= i < path@.len() ==> (#[trigger] path@[i]) != path@[i - 1] && circ_dist(
                    path@[i - 1] as int,
                    path@[i] as int,
                    n as int,
                ) >= cfg.minimum_difference,
            buffer@.len() == size * size,
            init == old(buffer)@,
            buffer@ == buffer_after(init, *lines, path@, bf as int, size as int),
        decreases cfg.wraps - w,
    {
        match best_candidate(cfg, buffer, coords, lines, &used, current) {
            None => {
                proof {
                    assert(greedy_path(init, *lines, path@, *cfg));
                    assert(path@.len() <= cfg.wraps);
                    assert(forall|c: int|
                        !(#[trigger] eligible(
                            path@[path@.len() - 1] as int,
                            c,
                            cfg.circle_points as int,
                            cfg.minimum_difference as int,
                            path_ids(path@),
                        )));
                }
                return Err(RunError::NoEligibleCandidate);
            },
            Some(next) => {
                let ghost p0: Seq<u16> = path@;
                let ghost used0: Seq<LineID> = used@;
                let ghost cur0: u16 = current;
                let id: LineID = get_line_id(current, next);
                proof {
                    lemma_segment_in_image(
                        *lines,
                        coords@,
                        size as int,
                        id.start as int,
                        id.end as int,
                    );
                }
                let seg: &Vec<Point> = lines.get(id);
                apply_line(buffer, seg, bf, size);
                used.push(id);
                path.push(next);
                current = next;
                w = w + 1;
                proof {
                    let p1 = path@;
                    assert(p1 == p0.push(next));
                    assert(p1.drop_last() =~= p0);
                    assert(path_ids(p1) =~= used0.push(id)) by {
                        assert forall|k: int| 0 <= k < p1.len() - 1 implies path_ids(p1)[k]
                            == used0.push(id)[k] by {
                            if k < p0.len() - 1 {
                                assert(path_ids(p1)[k] == line_id(p1[k], p1[k + 1]));
                                assert(used0[k] == path_ids(p0)[k]);
                            } else {
                                assert(path_ids(p1)[k] == line_id(p0[p0.len() - 1], next));
                            }
                        }
                    }
                    assert(!used0.contains(id));
                    assert(used@.no_duplicates()) by {
                        assert forall|i: int, j: int|
                            0 <= i < used@.len() && 0 <= j < used@.len() && i != j implies used@[i]
                            != used@[j] by {
                            if i < used0.len() && j < used0.len() {
                                assert(used@[i] == used0[i] && used@[j] == used0[j]);
                            } else if i < used0.len() {
                                assert(used@[j] == id && used@[i] == used0[i]);
                            } else {
                                assert(used@[i] == id && used@[j] == used0[j]);
                            }
                        }
                    }
                    assert(buffer@ == buffer_after(init, *lines, p1, bf as int, size as int)) by {
                        assert(p1[p1.len() - 2] == cur0 && p1[p1.len() - 1] == next);
                        assert(id == line_id(cur0, next));
                    }
                    assert(greedy_path(init, *lines, p1, *cfg)) by {
                        assert forall|i: int| 1 <= i < p1.len() implies is_greedy_choice(
                            *lines,
                            buffer_after(
                                init,
                                *lines,
                                #[trigger] p1.take(i),
                                cfg.brightness_factor as int,
                                cfg.image_size as int,
                            ),
                            path_ids(p1.take(i)),
                            p1[i - 1] as int,
                            p1[i] as int,
                            *cfg,
                        ) by {
                            if i < p1.len() - 1 {
                                assert(p1.take(i) =~= p0.take(i));
                                assert(is_greedy_choice(
                                    *lines,
                                    buffer_after(
                                        init,
                                        *lines,
                                        p0.take(i),
                                        cfg.brightness_factor as int,
                                        cfg.image_size as int,
                                    ),
                                    path_ids(p0.take(i)),
                                    p0[i - 1] as int,
                                    p0[i] as int,
                                    *cfg,
                                ));
                            } else {
                                assert(p1.take(i) =~= p0);
                                assert(is_greedy_choice(
                                    *lines,
                                    buffer_after(
                                        init,
                                        *lines,
                                        p0,
                                        cfg.brightness_factor as int,
                                        cfg.image_size as int,
                                    ),
                                    path_ids(p0),
                                    cur0 as int,
                                    next as int,
                                    *cfg,
                                ));
                            }
                        }
                    }
                }
            },
        }
    }
    Ok(path)
}

} // verus!
