//! Provenance text of the `discover` stage: the stable miner identifier of an induction engine,
//! and how an archive directory is recorded relative to the run directory.

use vstd::prelude::*;
use vstd::string::*;
use crate::framework::text::{join_with, joined, text_eq};
use crate::io::schema::{MINE_ENGINE_CART, MINE_ENGINE_LINFA_TREES};

verus! {

/// The stable miner identifier recorded in provenance for a miner engine value.
pub open spec fn spec_miner_id(engine: Seq<char>) -> Seq<char> {
    if engine == "cart"@ {
        "cart-v1"@
    } else if engine == "linfa-trees"@ {
        "linfa-trees-0.8.1"@
    } else {
        engine
    }
}

/// Maps a miner engine value to the stable miner identifier recorded in provenance: `cart` is
/// `cart-v1`, `linfa-trees` is `linfa-trees-0.8.1`, any other value is kept as it is.
pub fn miner_id(engine: &str) -> (id: String)
    ensures
        id@ == spec_miner_id(engine@),
{
    proof {
        reveal_strlit("cart");
        reveal_strlit("linfa-trees");
        reveal_strlit("cart-v1");
        reveal_strlit("linfa-trees-0.8.1");
    }
    if text_eq(engine, MINE_ENGINE_CART) {
        String::from_str("cart-v1")
    } else if text_eq(engine, MINE_ENGINE_LINFA_TREES) {
        String::from_str("linfa-trees-0.8.1")
    } else {
        String::from_str(engine)
    }
}

/// The components of `path` after its leading components equal to those of `base`, each as
/// text; `None` when `base` is not a component-wise prefix of `path`.
pub uninterp spec fn path_relative_components(path: Seq<char>, base: Seq<char>) -> Option<Seq<Seq<char>>>;

/// `std::path::Path::strip_prefix` followed by `Path::components`, each component rendered as
/// text. The result is named: it depends on the two paths' text alone, by the lexical
/// component rules of `std::path`, which are not restated here.
#[verifier::external_body]
fn relative_components(path: &str, base: &str) -> (r: Option<Vec<String>>)
    ensures
        r matches Some(v) ==> path_relative_components(path@, base@) == Some(
            v@.map_values(|c: String| c@),
        ),
        r is None ==> path_relative_components(path@, base@) is None,
{
    std::path::Path::new(path).strip_prefix(base).ok().map(
        |rel| rel.components().map(|c| c.as_os_str().to_string_lossy().into_owned()).collect(),
    )
}

/// How an archive directory is recorded: its components relative to `out` joined with `/`
/// (`.` when it is `out` itself), or the directory as given when it does not lie under `out`.
pub open spec fn spec_archive_display(archive_dir: Seq<char>, out: Seq<char>) -> Seq<char> {
    match path_relative_components(archive_dir, out) {
        Some(parts) => if joined(parts, "/"@).len() == 0 {
            "."@
        } else {
            joined(parts, "/"@)
        },
        None => archive_dir,
    }
}

/// Renders an archive directory for the `discover` manifest: forward-slash-joined and relative
/// to the run directory `out` when it lies under it, else the directory as given.
pub fn archive_display(archive_dir: &str, out: &str) -> (s: String)
    ensures
        s@ == spec_archive_display(archive_dir@, out@),
{
    proof {
        reveal_strlit("/");
        reveal_strlit(".");
    }
    match relative_components(archive_dir, out) {
        Some(parts) => {
            let joined_parts = join_with(parts.as_slice(), "/");
            if joined_parts.as_str().unicode_len() == 0 {
                String::from_str(".")
            } else {
                joined_parts
            }
        },
        None => String::from_str(archive_dir),
    }
}

} // verus!
