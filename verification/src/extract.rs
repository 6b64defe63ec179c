//! The frame-extractor collaborator contract: the argument lists for the
//! two invocations of the external transcoding tool — one writes the
//! scaled still frames with zero-padded sequence numbers, the other the
//! decoded audio track. The caller runs the tool once per list; a spawn
//! failure or non-zero exit is fatal to the whole run, never retried.
use vstd::prelude::*;
use crate::digits::dec_repr;

verus! {

/// The scale filter argument: `scale=<width>:<height>`.
pub open spec fn scale_arg_spec(w: nat, h: nat) -> Seq<char> {
    seq!['s', 'c', 'a', 'l', 'e', '='] + dec_repr(w) + seq![':'] + dec_repr(h)
}

/// Builds the scale filter argument for the configured grid.
pub fn scale_arg(width: usize, height: usize) -> (r: String)
    ensures
        r@ == scale_arg_spec(width as nat, height as nat),
{
    let mut cs: Vec<char> = Vec::new();
    cs.push('s');
    cs.push('c');
    cs.push('a');
    cs.push('l');
    cs.push('e');
    cs.push('=');
    let mut w = crate::digits::format_dec(width as u64);
    cs.append(&mut w);
    cs.push(':');
    let mut h = crate::digits::format_dec(height as u64);
    cs.append(&mut h);
    proof {
        assert(cs@ =~= scale_arg_spec(width as nat, height as nat));
    }
    crate::text::chars_to_string(&cs)
}

/// The arguments that make the transcoding tool decode `video` into
/// still frames `./cache/frames/frame-NNNNNNN.png`, scaled to the
/// configured grid and numbered so lexicographic and temporal order
/// coincide.
pub fn frame_extract_args(video: &str, width: usize, height: usize) -> (args: Vec<String>)
    ensures
        args.deep_view() == seq![
            "-i"@,
            video@,
            "-vf"@,
            "image2"@,
            "-vf"@,
            scale_arg_spec(width as nat, height as nat),
            "./cache/frames/frame-%07d.png"@,
        ],
{
    let mut args: Vec<String> = Vec::new();
    args.push("-i".to_owned());
    args.push(video.to_owned());
    args.push("-vf".to_owned());
    args.push("image2".to_owned());
    args.push("-vf".to_owned());
    args.push(scale_arg(width, height));
    args.push("./cache/frames/frame-%07d.png".to_owned());
    proof {
        assert(args.deep_view() =~~= seq![
            "-i"@,
            video@,
            "-vf"@,
            "image2"@,
            "-vf"@,
            scale_arg_spec(width as nat, height as nat),
            "./cache/frames/frame-%07d.png"@,
        ]);
    }
    args
}

/// The arguments that make the transcoding tool decode the audio track of
/// `video` into `./cache/audio.wav`.
pub fn audio_extract_args(video: &str) -> (args: Vec<String>)
    ensures
        args.deep_view() == seq!["-i"@, video@, "./cache/audio.wav"@],
{
    let mut args: Vec<String> = Vec::new();
    args.push("-i".to_owned());
    args.push(video.to_owned());
    args.push("./cache/audio.wav".to_owned());
    proof {
        assert(args.deep_view() =~~= seq!["-i"@, video@, "./cache/audio.wav"@]);
    }
    args
}

} // verus!
