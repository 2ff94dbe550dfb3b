//! Run configuration: which size classes are selected, where the cache tree
//! lives, and which file extensions count as images.

use vstd::prelude::*;
use crate::thumbnailer::{ThumbError, ThumbSize};
use crate::util::extend;

verus! {

/// The command-line choices the run is driven by.
pub struct Args {
    pub arg_directory: Vec<u8>,
    pub flag_verbose: bool,
    pub flag_debug: bool,
    pub flag_recursive: bool,
    pub flag_normal: bool,
    pub flag_large: bool,
    pub flag_workers: Option<u32>,
    pub flag_output: Option<Vec<u8>>,
    pub flag_xdg: bool,
    pub flag_shared: bool,
    pub flag_jobs: Option<i32>,
}

/// The size classes two flags select: normal first, then large.
pub open spec fn spec_sizes(normal: bool, large: bool) -> Seq<ThumbSize> {
    (if normal {
        seq![ThumbSize::Normal]
    } else {
        Seq::empty()
    }) + (if large {
        seq![ThumbSize::Large]
    } else {
        Seq::empty()
    })
}

impl Args {
    /// The size classes these arguments select.
    pub fn sizes(&self) -> (r: Vec<ThumbSize>)
        ensures
            r@ == spec_sizes(self.flag_normal, self.flag_large),
    {
        let mut result: Vec<ThumbSize> = Vec::new();
        if self.flag_normal {
            result.push(ThumbSize::Normal);
        }
        if self.flag_large {
            result.push(ThumbSize::Large);
        }
        assert(result@ =~= spec_sizes(self.flag_normal, self.flag_large));
        result
    }
}

/// The ".sh_thumbnails" directory name of a shared per-folder cache.
pub open spec fn sh_thumbnails_dir() -> Seq<u8> {
    seq![46u8, 115u8, 104u8, 95u8, 116u8, 104u8, 117u8, 109u8, 98u8, 110u8, 97u8, 105u8, 108u8, 115u8]
}

/// The "thumbnails" directory name.
pub open spec fn thumbnails_dir() -> Seq<u8> {
    seq![116u8, 104u8, 117u8, 109u8, 98u8, 110u8, 97u8, 105u8, 108u8, 115u8]
}

/// The ".cache" directory name.
pub open spec fn cache_dir() -> Seq<u8> {
    seq![46u8, 99u8, 97u8, 99u8, 104u8, 101u8]
}

/// The view of an optional byte vector.
pub open spec fn opt_view(o: Option<Vec<u8>>) -> Option<Seq<u8>> {
    match o {
        Some(v) => Some(v@),
        None => None,
    }
}

/// Where the cache tree goes: an explicit output directory wins; a shared
/// cache sits under the scanned directory; otherwise the XDG cache home or,
/// failing that, ".cache" under the home directory. With no way to choose,
/// the run is refused.
pub open spec fn cache_destination_spec(
    output: Option<Seq<u8>>,
    xdg_flag: bool,
    shared: bool,
    directory: Seq<u8>,
    xdg_env: Option<Seq<u8>>,
    home_env: Option<Seq<u8>>,
) -> Result<Seq<u8>, ThumbError> {
    match output {
        Some(p) => Ok(p),
        None => {
            if !xdg_flag && !shared {
                Err(ThumbError::InvalidInput)
            } else if shared {
                Ok(directory + seq![47u8] + sh_thumbnails_dir())
            } else {
                match xdg_env {
                    Some(x) => Ok(x + seq![47u8] + thumbnails_dir()),
                    None => match home_env {
                        Some(h) => Ok(
                            h + seq![47u8] + cache_dir() + seq![47u8] + thumbnails_dir(),
                        ),
                        None => Err(ThumbError::InvalidInput),
                    },
                }
            }
        },
    }
}

/// Copies a byte vector.
fn clone_bytes(v: &Vec<u8>) -> (r: Vec<u8>)
    ensures
        r@ == v@,
{
    let mut r: Vec<u8> = Vec::new();
    extend(&mut r, v);
    assert(r@ =~= v@);
    r
}

fn push_sh_thumbnails(dst: &mut Vec<u8>)
    ensures
        final(dst)@ == old(dst)@ + sh_thumbnails_dir(),
{
    dst.push(46);
    dst.push(115);
    dst.push(104);
    dst.push(95);
    dst.push(116);
    dst.push(104);
    dst.push(117);
    dst.push(109);
    dst.push(98);
    dst.push(110);
    dst.push(97);
    dst.push(105);
    dst.push(108);
    dst.push(115);
    assert(dst@ =~= old(dst)@ + sh_thumbnails_dir());
}

fn push_thumbnails(dst: &mut Vec<u8>)
    ensures
        final(dst)@ == old(dst)@ + thumbnails_dir(),
{
    dst.push(116);
    dst.push(104);
    dst.push(117);
    dst.push(109);
    dst.push(98);
    dst.push(110);
    dst.push(97);
    dst.push(105);
    dst.push(108);
    dst.push(115);
    assert(dst@ =~= old(dst)@ + thumbnails_dir());
}

/// Picks the cache root from the arguments and the environment's cache and
/// home directories, as `cache_destination_spec` lays down.
pub fn get_cache_destination(
    args: &Args,
    xdg_env: Option<Vec<u8>>,
    home_env: Option<Vec<u8>>,
) -> (r: Result<Vec<u8>, ThumbError>)
    ensures
        match r {
            Ok(d) => cache_destination_spec(
                opt_view(args.flag_output),
                args.flag_xdg,
                args.flag_shared,
                args.arg_directory@,
                opt_view(xdg_env),
                opt_view(home_env),
            ) == Ok::<Seq<u8>, ThumbError>(d@),
            Err(e) => cache_destination_spec(
                opt_view(args.flag_output),
                args.flag_xdg,
                args.flag_shared,
                args.arg_directory@,
                opt_view(xdg_env),
                opt_view(home_env),
            ) == Err::<Seq<u8>, ThumbError>(e),
        },
{
    match &args.flag_output {
        Some(p) => Ok(clone_bytes(p)),
        None => {
            if !args.flag_xdg && !args.flag_shared {
                Err(ThumbError::InvalidInput)
            } else if args.flag_shared {
                let mut d: Vec<u8> = clone_bytes(&args.arg_directory);
                d.push(47);
                push_sh_thumbnails(&mut d);
                assert(d@ =~= args.arg_directory@ + seq![47u8] + sh_thumbnails_dir());
                Ok(d)
            } else {
                match xdg_env {
                    Some(x) => {
                        let mut d: Vec<u8> = x;
                        d.push(47);
                        push_thumbnails(&mut d);
                        proof {
                            assert(d@ =~= opt_view(xdg_env)->0 + seq![47u8] + thumbnails_dir());
                        }
                        Ok(d)
                    },
                    None => match home_env {
                        Some(h) => {
                            let mut d: Vec<u8> = h;
                            d.push(47);
                            d.push(46);
                            d.push(99);
                            d.push(97);
                            d.push(99);
                            d.push(104);
                            d.push(101);
                            d.push(47);
                            push_thumbnails(&mut d);
                            proof {
                                assert(d@ =~= opt_view(home_env)->0 + seq![47u8] + cache_dir()
                                    + seq![47u8] + thumbnails_dir());
                            }
                            Ok(d)
                        },
                        None => Err(ThumbError::InvalidInput),
                    },
                }
            }
        },
    }
}

/// ASCII lowercasing, byte by byte.
pub open spec fn ascii_lower(s: Seq<u8>) -> Seq<u8> {
    s.map_values(
        |b: u8|
            if 65 <= b <= 90 {
                (b + 32) as u8
            } else {
                b
            },
    )
}

/// Lowercases ASCII letters.
fn to_ascii_lower(v: &Vec<u8>) -> (r: Vec<u8>)
    ensures
        r@ == ascii_lower(v@),
{
    let mut r: Vec<u8> = Vec::new();
    let mut i: usize = 0;
    while i < v.len()
        invariant
            i <= v@.len(),
            r@ == ascii_lower(v@).take(i as int),
        decreases v@.len() - i,
    {
        let b: u8 = v[i];
        if 65 <= b && b <= 90 {
            r.push(b + 32);
        } else {
            r.push(b);
        }
        assert(r@ =~= ascii_lower(v@).take(i + 1));
        i = i + 1;
    }
    assert(ascii_lower(v@).take(v@.len() as int) =~= ascii_lower(v@));
    r
}

/// The "jpg" extension.
pub open spec fn ext_jpg() -> Seq<u8> {
    seq![106u8, 112u8, 103u8]
}

/// The "jpeg" extension.
pub open spec fn ext_jpeg() -> Seq<u8> {
    seq![106u8, 112u8, 101u8, 103u8]
}

/// The "png" extension.
pub open spec fn ext_png() -> Seq<u8> {
    seq![112u8, 110u8, 103u8]
}

/// Whether a file extension, compared case-insensitively, is one of the
/// image extensions the scan takes.
pub open spec fn spec_is_image(extension: Seq<u8>) -> bool {
    ||| ascii_lower(extension) == ext_jpg()
    ||| ascii_lower(extension) == ext_jpeg()
    ||| ascii_lower(extension) == ext_png()
}

fn is_bytes3(v: &Vec<u8>, a: u8, b: u8, c: u8) -> (r: bool)
    ensures
        r == (v@ == seq![a, b, c]),
{
    let eq: bool = v.len() == 3 && v[0] == a && v[1] == b && v[2] == c;
    proof {
        if eq {
            assert(v@ =~= seq![a, b, c]);
        } else {
            assert(v@ == seq![a, b, c] ==> v@.len() == 3 && v@[0] == a && v@[1] == b && v@[2]
                == c);
        }
    }
    eq
}

fn is_bytes4(v: &Vec<u8>, a: u8, b: u8, c: u8, d: u8) -> (r: bool)
    ensures
        r == (v@ == seq![a, b, c, d]),
{
    let eq: bool = v.len() == 4 && v[0] == a && v[1] == b && v[2] == c && v[3] == d;
    proof {
        if eq {
            assert(v@ =~= seq![a, b, c, d]);
        } else {
            assert(v@ == seq![a, b, c, d] ==> v@.len() == 4 && v@[0] == a && v@[1] == b && v@[2]
                == c && v@[3] == d);
        }
    }
    eq
}

/// Whether a file with this extension is taken for an image (jpg, jpeg or
/// png, case-insensitively).
pub fn is_image(extension: &Vec<u8>) -> (r: bool)
    ensures
        r == spec_is_image(extension@),
{
    let lowered: Vec<u8> = to_ascii_lower(extension);
    is_bytes3(&lowered, 106, 112, 103) || is_bytes4(&lowered, 106, 112, 101, 103) || is_bytes3(
        &lowered,
        112,
        110,
        103,
    )
}

} // verus!
