//! The full pipeline: validate the input buffer, build the peg ring and the
//! line table, run the greedy selector, and render the preview.

use vstd::prelude::*;
use crate::geometry::ring;
use crate::geometry::circle_coords;
use crate::lines::LineTable;
use crate::lines::map_of_lines;
use crate::render::render;
use crate::render::render_spec;
use crate::select::Config;
use crate::select::RunError;
use crate::select::config_wf;
use crate::select::select_path;
use crate::select::greedy_path;
use crate::select::buffer_after;
use crate::select::path_ids;
use crate::select::eligible;
use crate::select::circ_dist;
use crate::lines::table_matches;
use crate::lines::table_exact;

verus! {

/// The artifacts of a run: the peg path and the rendered preview buffer.
pub struct RunOutput {
    /// The peg sequence, starting at peg 0, one more entry than wraps.
    pub path: Vec<u16>,
    /// The preview image, `image_size * image_size` bytes, row-major.
    pub preview: Vec<u8>,
}

/// Runs the whole engine on a decoded grayscale input image: builds the peg
/// ring and line table, selects the path greedily, and renders the preview.
pub fn generate(cfg: &Config, pixels: Vec<u8>) -> (r: Result<RunOutput, RunError>)
    requires
        config_wf(*cfg),
    ensures
        (r == Result::<RunOutput, RunError>::Err(RunError::WrongImageSize)) <==> pixels@.len()
            != cfg.image_size * cfg.image_size,
        match r {
            Ok(out) => {
                &&& out.path@.len() == cfg.wraps + 1
                &&& out.path@[0] == 0
                &&& forall|i: int|
                    0 <= i < out.path@.len() ==> (#[trigger] out.path@[i]) < cfg.circle_points
                &&& path_ids(out.path@).len() == cfg.wraps
                &&& path_ids(out.path@).no_duplicates()
                &&& forall|i: int|
                    1 <= i < out.path@.len() ==> (#[trigger] out.path@[i]) != out.path@[i - 1]
                        && circ_dist(
                        out.path@[i - 1] as int,
                        out.path@[i] as int,
                        cfg.circle_points as int,
                    ) >= cfg.minimum_difference
                &&& out.preview@.len() == cfg.image_size * cfg.image_size
                &&& exists|t: LineTable|
                    {
                        &&& #[trigger] table_matches(
                            t,
                            ring(cfg.circle_points as int, cfg.image_size as int),
                        )
                        &&& table_exact(t, ring(cfg.circle_points as int, cfg.image_size as int))
                        &&& greedy_path(pixels@, t, out.path@, *cfg)
                        &&& out.preview@ == render_spec(out.path@, t, cfg.image_size as int)
                    }
            },
            Err(e) => e == RunError::WrongImageSize || e == RunError::NoEligibleCandidate,
        },
        r == Result::<RunOutput, RunError>::Err(RunError::NoEligibleCandidate) ==> pixels@.len()
            == cfg.image_size * cfg.image_size && exists|t: LineTable, p: Seq<u16>|
            {
                &&& #[trigger] greedy_path(pixels@, t, p, *cfg)
                &&& table_matches(t, ring(cfg.circle_points as int, cfg.image_size as int))
                &&& table_exact(t, ring(cfg.circle_points as int, cfg.image_size as int))
                &&& p.len() <= cfg.wraps
                &&& forall|c: int|
                    !(#[trigger] eligible(
                        p[p.len() - 1] as int,
                        c,
                        cfg.circle_points as int,
                        cfg.minimum_difference as int,
                        path_ids(p),
                    ))
            },
{
    let size: usize = cfg.image_size;
    proof {
        assert(size * size <= 32767 * 32767) by (nonlinear_arith)
            requires
                0 <= size <= 32767,
        ;
    }
    let area: usize = size * size;
    if pixels.len() != area {
        return Err(RunError::WrongImageSize);
    }
    let coords = circle_coords(size, cfg.circle_points);
    let lines: LineTable = map_of_lines(&coords);
    let mut working: Vec<u8> = pixels;
    let ghost init: Seq<u8> = working@;
    match select_path(cfg, &mut working, &coords, &lines) {
        Ok(path) => {
            let preview: Vec<u8> = render(&path, &lines, &coords, size);
            proof {
                assert(table_matches(
                    lines,
                    ring(cfg.circle_points as int, cfg.image_size as int),
                ));
                assert(table_exact(
                    lines,
                    ring(cfg.circle_points as int, cfg.image_size as int),
                ));
                assert(greedy_path(init, lines, path@, *cfg));
                assert(preview@ == render_spec(path@, lines, cfg.image_size as int));
            }
            Ok(RunOutput { path, preview })
        },
        Err(e) => {
            proof {
                let p0 = choose|p: Seq<u16>|
                    {
                        &&& #[trigger] greedy_path(init, lines, p, *cfg)
                        &&& p.len() <= cfg.wraps
                        &&& forall|c: int|
                            !(#[trigger] eligible(
                                p[p.len() - 1] as int,
                                c,
                                cfg.circle_points as int,
                                cfg.minimum_difference as int,
                                path_ids(p),
                            ))
                        &&& working@ == buffer_after(
                            init,
                            lines,
                            p,
                            cfg.brightness_factor as int,
                            cfg.image_size as int,
                        )
                    };
                assert(greedy_path(init, lines, p0, *cfg));
            }
            Err(RunError::NoEligibleCandidate)
        },
    }
}

} // verus!
