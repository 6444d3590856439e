//! Pictures of the screen from a video stream of the desktop.
//!
//! The portal and the stream are asked elsewhere. This module says which formats and buffers are
//! taken, and keeps the latest picture between the stream and those who want it.

use vstd::prelude::*;

use crate::text;
use crate::text::{concat, contains};
use crate::vision::detection::{FrameData, PixelFormat};
use crate::vision::geometry::ScreenRect;

verus! {

/// Why there is no picture.
#[derive(Debug)]
pub enum LinuxCaptureError {
    PortalUnavailable(String),
    ScreenCaptureDenied,
    PipeWireUnavailable(String),
    PipeWireConnectionFailed(String),
    PipeWireStreamFailed(String),
    StreamNegotiationFailed(String),
    UnsupportedPixelFormat(String),
    CaptureDisconnected,
    NoFrames,
    FrameTimeout,
}

impl LinuxCaptureError {
    pub open spec fn text(&self) -> Seq<char> {
        match self {
            LinuxCaptureError::PortalUnavailable(e) => "Portal unavailable: "@ + e@,
            LinuxCaptureError::ScreenCaptureDenied => "Screen capture denied by user"@,
            LinuxCaptureError::PipeWireUnavailable(e) => "PipeWire unavailable: "@ + e@,
            LinuxCaptureError::PipeWireConnectionFailed(e) => "PipeWire connection failed: "@ + e@,
            LinuxCaptureError::PipeWireStreamFailed(e) => "PipeWire stream failed: "@ + e@,
            LinuxCaptureError::StreamNegotiationFailed(e) => "Stream negotiation failed: "@ + e@,
            LinuxCaptureError::UnsupportedPixelFormat(e) => "Unsupported pixel format: "@ + e@,
            LinuxCaptureError::CaptureDisconnected => "Capture disconnected"@,
            LinuxCaptureError::NoFrames => "No frames available"@,
            LinuxCaptureError::FrameTimeout => "Frame timeout"@,
        }
    }

    /// The error in words.
    pub fn message(&self) -> (r: String)
        ensures
            r@ == self.text(),
    {
        match self {
            LinuxCaptureError::PortalUnavailable(e) => concat("Portal unavailable: ", e.as_str()),
            LinuxCaptureError::ScreenCaptureDenied => "Screen capture denied by user".to_owned(),
            LinuxCaptureError::PipeWireUnavailable(e) => concat(
                "PipeWire unavailable: ",
                e.as_str(),
            ),
            LinuxCaptureError::PipeWireConnectionFailed(e) => concat(
                "PipeWire connection failed: ",
                e.as_str(),
            ),
            LinuxCaptureError::PipeWireStreamFailed(e) => concat(
                "PipeWire stream failed: ",
                e.as_str(),
            ),
            LinuxCaptureError::StreamNegotiationFailed(e) => concat(
                "Stream negotiation failed: ",
                e.as_str(),
            ),
            LinuxCaptureError::UnsupportedPixelFormat(e) => concat(
                "Unsupported pixel format: ",
                e.as_str(),
            ),
            LinuxCaptureError::CaptureDisconnected => "Capture disconnected".to_owned(),
            LinuxCaptureError::NoFrames => "No frames available".to_owned(),
            LinuxCaptureError::FrameTimeout => "Frame timeout".to_owned(),
        }
    }
}

/// The order of the parts of a pixel in a stream.
#[derive(Debug, Clone, Copy, PartialEq, Eq, Structural)]
pub enum SpaVideoFormatTag {
    Bgrx,
    Rgbx,
    Bgra,
    Rgba,
    Bgr,
    Rgb,
    Xrgb,
    Xbgr,
    Argb,
    Abgr,
    Other(u32),
}

impl SpaVideoFormatTag {
    /// The bytes of a pixel; zero for an unknown format.
    pub open spec fn width(self) -> int {
        match self {
            SpaVideoFormatTag::Bgr | SpaVideoFormatTag::Rgb => 3,
            SpaVideoFormatTag::Other(_) => 0,
            _ => 4,
        }
    }

    pub fn bytes_per_pixel(self) -> (r: u32)
        ensures
            r == self.width(),
    {
        match self {
            SpaVideoFormatTag::Bgr | SpaVideoFormatTag::Rgb => 3,
            SpaVideoFormatTag::Bgrx | SpaVideoFormatTag::Rgbx | SpaVideoFormatTag::Bgra
            | SpaVideoFormatTag::Rgba | SpaVideoFormatTag::Xrgb | SpaVideoFormatTag::Xbgr
            | SpaVideoFormatTag::Argb | SpaVideoFormatTag::Abgr => 4,
            SpaVideoFormatTag::Other(_) => 0,
        }
    }

    pub fn is_supported(self) -> (r: bool)
        ensures
            r == (self !is Other),
    {
        self.bytes_per_pixel() > 0
    }
}

/// What was agreed on for a stream.
#[derive(Debug, Clone, Copy, PartialEq, Eq, Structural)]
pub struct StreamInfo {
    pub width: u32,
    pub height: u32,
    pub stride: u32,
    pub format: SpaVideoFormatTag,
    pub framerate_num: u32,
    pub framerate_denom: u32,
}

/// Takes or refuses a format that is offered; rows follow each other without a gap.
pub fn negotiate(
    format: SpaVideoFormatTag,
    width: u32,
    height: u32,
    framerate_num: u32,
    framerate_denom: u32,
) -> (r: Option<StreamInfo>)
    requires
        width * format.width() <= u32::MAX,
    ensures
        r == if format is Other {
            None
        } else {
            Some(
                StreamInfo {
                    width,
                    height,
                    stride: (width * format.width()) as u32,
                    format,
                    framerate_num,
                    framerate_denom,
                },
            )
        },
{
    if !format.is_supported() {
        return None;
    }
    Some(
        StreamInfo {
            width,
            height,
            stride: width * format.bytes_per_pixel(),
            format,
            framerate_num,
            framerate_denom,
        },
    )
}

/// The bytes from one row to the next in a buffer that may say so itself.
pub open spec fn buffer_stride(info: StreamInfo, chunk_stride: i32) -> int {
    if chunk_stride > 0 {
        chunk_stride as int
    } else {
        info.width * info.format.width()
    }
}

/// The bytes that a buffer must hold.
pub open spec fn buffer_size(info: StreamInfo, chunk_stride: i32) -> int {
    buffer_stride(info, chunk_stride) * info.height
}

/// The bytes of a row and of all rows can be counted.
pub open spec fn countable(info: StreamInfo, chunk_stride: i32) -> bool {
    &&& buffer_stride(info, chunk_stride) <= u32::MAX
    &&& buffer_size(info, chunk_stride) <= u32::MAX
}

/// A buffer is taken: it is not empty, its format is known, and it holds all rows.
pub open spec fn taken(info: StreamInfo, chunk_size: usize, chunk_stride: i32) -> bool {
    &&& chunk_size > 0
    &&& info.format !is Other
    &&& chunk_size >= buffer_size(info, chunk_stride)
}

/// Whether a buffer is taken: the bytes from row to row, and the bytes that are read. A buffer
/// that is empty or too small is not.
pub fn accept_buffer(info: &StreamInfo, chunk_size: usize, chunk_stride: i32) -> (r: Option<
    (u32, usize),
>)
    requires
        chunk_size > 0 && info.format !is Other ==> countable(*info, chunk_stride),
    ensures
        r == if taken(*info, chunk_size, chunk_stride) {
            Some(
                (
                    buffer_stride(*info, chunk_stride) as u32,
                    buffer_size(*info, chunk_stride) as usize,
                ),
            )
        } else {
            None
        },
{
    if chunk_size == 0 {
        return None;
    }
    let bpp: u32 = info.format.bytes_per_pixel();
    if bpp == 0 {
        return None;
    }
    let stride: u32 = if chunk_stride > 0 {
        chunk_stride as u32
    } else {
        info.width * bpp
    };
    let required: u32 = stride * info.height;
    if chunk_size < required as usize {
        return None;
    }
    Some((stride, required as usize))
}

/// How a format of the stream is seen by those who read the picture.
pub open spec fn pixel_format(format: SpaVideoFormatTag) -> PixelFormat {
    match format {
        SpaVideoFormatTag::Bgrx | SpaVideoFormatTag::Bgra | SpaVideoFormatTag::Xbgr
        | SpaVideoFormatTag::Abgr | SpaVideoFormatTag::Other(_) => PixelFormat::Bgra,
        SpaVideoFormatTag::Rgbx | SpaVideoFormatTag::Rgba | SpaVideoFormatTag::Xrgb
        | SpaVideoFormatTag::Argb => PixelFormat::Rgba,
        SpaVideoFormatTag::Bgr => PixelFormat::Bgr,
        SpaVideoFormatTag::Rgb => PixelFormat::Rgb,
    }
}

pub fn spa_to_pixel_format(format: SpaVideoFormatTag) -> (r: PixelFormat)
    ensures
        r == pixel_format(format),
{
    match format {
        SpaVideoFormatTag::Bgrx | SpaVideoFormatTag::Bgra | SpaVideoFormatTag::Xbgr
        | SpaVideoFormatTag::Abgr => PixelFormat::Bgra,
        SpaVideoFormatTag::Rgbx | SpaVideoFormatTag::Rgba | SpaVideoFormatTag::Xrgb
        | SpaVideoFormatTag::Argb => PixelFormat::Rgba,
        SpaVideoFormatTag::Bgr => PixelFormat::Bgr,
        SpaVideoFormatTag::Rgb => PixelFormat::Rgb,
        SpaVideoFormatTag::Other(_) => PixelFormat::Bgra,
    }
}

/// A pixel of every known format is as wide for those who read the picture as in the stream.
pub proof fn law_pixel_width_kept(format: SpaVideoFormatTag)
    requires
        format !is Other,
    ensures
        pixel_format(format).width() == format.width(),
{
}

/// Puts the first bytes of a buffer of the stream into a buffer that was used before.
pub fn fill_buffer(used: Vec<u8>, source: &[u8], required: usize) -> (r: Vec<u8>)
    requires
        required <= source@.len(),
    ensures
        r@ == source@.take(required as int),
{
    let mut r = used;
    r.clear();
    let mut i: usize = 0;
    while i < required
        invariant
            i <= required <= source@.len(),
            r@ == source@.take(i as int),
        decreases required - i,
    {
        r.push(source[i]);
        assert(r@ =~= source@.take(i + 1));
        i = i + 1;
    }
    r
}

/// The picture in a buffer that was taken.
pub fn frame_from(info: &StreamInfo, stride: u32, data: Vec<u8>) -> (r: FrameData)
    ensures
        r == (FrameData {
            width: info.width,
            height: info.height,
            stride,
            data,
            format: pixel_format(info.format),
        }),
{
    FrameData::new_with_stride(
        info.width,
        info.height,
        stride,
        data,
        spa_to_pixel_format(info.format),
    )
}

/// What a stream offers.
#[derive(Debug, Clone, Copy, PartialEq, Eq, Structural)]
pub enum Offer {
    /// Something else than a format, or nothing.
    NoFormat,
    /// A format that cannot be read.
    Unreadable,
    /// A format of something else than raw video.
    NotRawVideo,
    /// A format of raw video; the bytes from row to row are not looked at.
    RawVideo(StreamInfo),
}

/// What stands between the stream and those who want a picture: the latest one, which is given
/// away once, and a buffer to be used again.
#[derive(Debug)]
pub struct LinuxScreenCapturer {
    pub latest: Option<(FrameData, StreamInfo)>,
    pub recycle: Vec<u8>,
    pub stream_info: Option<StreamInfo>,
    pub running: bool,
    pub frames_received: u64,
}

impl LinuxScreenCapturer {
    pub fn new() -> (r: Self)
        ensures
            r.latest is None,
            r.recycle@.len() == 0,
            r.stream_info is None,
            r.running,
            r.frames_received == 0,
    {
        LinuxScreenCapturer {
            latest: None,
            recycle: Vec::new(),
            stream_info: None,
            running: true,
            frames_received: 0,
        }
    }

    /// Asks for a picture: `Ok(None)` means that one is to be waited for.
    pub fn capture(&mut self) -> (r: Result<Option<(FrameData, StreamInfo)>, LinuxCaptureError>)
        ensures
            if !old(self).running {
                &&& r matches Err(e) && e is CaptureDisconnected
                &&& *final(self) == *old(self)
            } else {
                &&& r == Ok::<_, LinuxCaptureError>(old(self).latest)
                &&& *final(self) == (LinuxScreenCapturer { latest: None, ..*old(self) })
            },
    {
        if !self.running {
            return Err(LinuxCaptureError::CaptureDisconnected);
        }
        Ok(self.latest.take())
    }

    /// What there is after the waiting.
    pub fn after_wait(&mut self, timed_out: bool) -> (r: Result<
        (FrameData, StreamInfo),
        LinuxCaptureError,
    >)
        ensures
            match old(self).latest {
                Some(latest) => r == Ok::<_, LinuxCaptureError>(latest),
                None => if timed_out {
                    r matches Err(e) && e is FrameTimeout
                } else {
                    r matches Err(e) && e is NoFrames
                },
            },
            *final(self) == (LinuxScreenCapturer { latest: None, ..*old(self) }),
    {
        match self.latest.take() {
            Some(latest) => Ok(latest),
            None => if timed_out {
                Err(LinuxCaptureError::FrameTimeout)
            } else {
                Err(LinuxCaptureError::NoFrames)
            },
        }
    }

    pub fn is_running(&self) -> (r: bool)
        ensures
            r == self.running,
    {
        self.running
    }

    pub fn frames_received(&self) -> (r: u64)
        ensures
            r == self.frames_received,
    {
        self.frames_received
    }

    pub fn stream_info(&self) -> (r: Option<StreamInfo>)
        ensures
            r == self.stream_info,
    {
        self.stream_info
    }

    /// The stream ended: no picture will come.
    pub fn stop(&mut self)
        ensures
            *final(self) == (LinuxScreenCapturer { running: false, ..*old(self) }),
    {
        self.running = false;
    }

    /// A format was offered: one that is not raw video, or of an unknown kind, changes nothing.
    /// The result says whether it was taken.
    pub fn offered(&mut self, offer: Offer) -> (r: bool)
        requires
            offer matches Offer::RawVideo(info) ==> info.width * info.format.width() <= u32::MAX,
        ensures
            r == (offer matches Offer::RawVideo(info) && info.format !is Other),
            *final(self) == match offer {
                Offer::RawVideo(info) => if info.format is Other {
                    *old(self)
                } else {
                    LinuxScreenCapturer {
                        stream_info: Some(
                            StreamInfo {
                                stride: (info.width * info.format.width()) as u32,
                                ..info
                            },
                        ),
                        ..*old(self)
                    }
                },
                _ => *old(self),
            },
    {
        match offer {
            Offer::RawVideo(info) => {
                let taken = negotiate(
                    info.format,
                    info.width,
                    info.height,
                    info.framerate_num,
                    info.framerate_denom,
                );
                match taken {
                    Some(info) => {
                        self.stream_info = Some(info);
                        true
                    },
                    None => false,
                }
            },
            _ => false,
        }
    }

    /// A buffer of the stream is there, with its bytes if they can be seen, the number of bytes
    /// used, and the bytes from row to row if they are given. The picture in it is published, if
    /// a format was agreed on and the buffer is large enough. The result says whether it was.
    pub fn receive(&mut self, bytes: Option<&[u8]>, chunk_size: usize, chunk_stride: i32) -> (r:
        bool)
        requires
            old(self).stream_info matches Some(info) ==> (bytes matches Some(b) ==> {
                &&& chunk_size > 0 && info.format !is Other ==> countable(info, chunk_stride)
                &&& taken(info, chunk_size, chunk_stride) ==> buffer_size(info, chunk_stride)
                    <= b@.len()
            }),
        ensures
            r == (bytes is Some && (old(self).stream_info matches Some(info) && taken(
                info,
                chunk_size,
                chunk_stride,
            ))),
            !r ==> *final(self) == *old(self),
            r ==> {
                let info = old(self).stream_info->0;
                &&& final(self).latest matches Some((frame, i))
                &&& i == info
                &&& frame.width == info.width
                &&& frame.height == info.height
                &&& frame.stride == buffer_stride(info, chunk_stride)
                &&& frame.format == pixel_format(info.format)
                &&& frame.data@ == bytes->0@.take(buffer_size(info, chunk_stride))
                &&& final(self).frames_received == if old(self).frames_received == u64::MAX {
                    0
                } else {
                    old(self).frames_received + 1
                }
                &&& final(self).recycle@ == if old(self).latest is Some {
                    old(self).recycle@
                } else {
                    Seq::empty()
                }
                &&& final(self).running == old(self).running
                &&& final(self).stream_info == old(self).stream_info
            },
    {
        let info = match self.stream_info {
            Some(info) => info,
            None => {
                return false;
            },
        };
        let source = match bytes {
            Some(source) => source,
            None => {
                return false;
            },
        };
        let (stride, required) = match accept_buffer(&info, chunk_size, chunk_stride) {
            Some(accepted) => accepted,
            None => {
                return false;
            },
        };
        let used = self.take_buffer();
        let data = fill_buffer(used, source, required);
        self.publish(frame_from(&info, stride, data), info);
        true
    }

    /// A buffer for the next picture: that of a picture nobody wanted, else the one to be used
    /// again.
    pub fn take_buffer(&mut self) -> (r: Vec<u8>)
        ensures
            match old(self).latest {
                Some((frame, _)) => {
                    &&& r == frame.data
                    &&& *final(self) == (LinuxScreenCapturer { latest: None, ..*old(self) })
                },
                None => {
                    &&& r == old(self).recycle
                    &&& final(self).recycle@.len() == 0
                    &&& final(self).latest is None
                    &&& final(self).stream_info == old(self).stream_info
                    &&& final(self).running == old(self).running
                    &&& final(self).frames_received == old(self).frames_received
                },
            },
    {
        match self.latest.take() {
            Some((frame, _)) => frame.data,
            None => {
                let mut buffer: Vec<u8> = Vec::new();
                std::mem::swap(&mut buffer, &mut self.recycle);
                buffer
            },
        }
    }

    /// The next picture is there; the buffer of one that nobody wanted is kept. The count starts
    /// again after the largest number.
    pub fn publish(&mut self, frame: FrameData, info: StreamInfo)
        ensures
            final(self).latest == Some((frame, info)),
            final(self).recycle == match old(self).latest {
                Some((old_frame, _)) => old_frame.data,
                None => old(self).recycle,
            },
            final(self).stream_info == old(self).stream_info,
            final(self).running == old(self).running,
            final(self).frames_received == if old(self).frames_received == u64::MAX {
                0
            } else {
                old(self).frames_received + 1
            },
    {
        if let Some((old_frame, _)) = self.latest.take() {
            self.recycle = old_frame.data;
        }
        self.latest = Some((frame, info));
        self.frames_received = if self.frames_received == u64::MAX {
            0
        } else {
            self.frames_received + 1
        };
    }
}

/// The picture of the whole screen with its place; any failure means that there is none.
pub fn capture_screen_frame(result: Result<(FrameData, StreamInfo), LinuxCaptureError>) -> (r: Option<
    (FrameData, ScreenRect),
>)
    ensures
        r == match result {
            Ok((frame, info)) => Some(
                (frame, ScreenRect { x: 0, y: 0, width: info.width, height: info.height }),
            ),
            Err(_) => None,
        },
{
    match result {
        Ok((frame, info)) => Some(
            (frame, ScreenRect { x: 0, y: 0, width: info.width, height: info.height }),
        ),
        Err(_) => None,
    }
}

/// The portal's words say that the user refused.
pub open spec fn names_refusal(message: Seq<char>) -> bool {
    text::holds(message, "ancelled"@) || text::holds(message, "Canceled"@)
}

pub fn is_cancelled(message: &str) -> (r: bool)
    ensures
        r == names_refusal(message@),
{
    contains(message, "ancelled") || contains(message, "Canceled")
}

/// What a failure of the portal means, by its words.
pub fn portal_failure(message: String) -> (r: LinuxCaptureError)
    ensures
        r == if names_refusal(message@) {
            LinuxCaptureError::ScreenCaptureDenied
        } else {
            LinuxCaptureError::PortalUnavailable(message)
        },
{
    if is_cancelled(message.as_str()) {
        LinuxCaptureError::ScreenCaptureDenied
    } else {
        LinuxCaptureError::PortalUnavailable(message)
    }
}

/// The stream to be read out of those that the portal gave: the first one.
pub fn first_stream(nodes: &Vec<u32>) -> (r: Result<u32, LinuxCaptureError>)
    ensures
        if nodes@.len() > 0 {
            r == Ok::<u32, LinuxCaptureError>(nodes@[0])
        } else {
            r matches Err(LinuxCaptureError::StreamNegotiationFailed(t)) && t@
                == "No streams returned by portal"@
        },
{
    if nodes.len() == 0 {
        Err(
            LinuxCaptureError::StreamNegotiationFailed(
                "No streams returned by portal".to_owned(),
            ),
        )
    } else {
        Ok(nodes[0])
    }
}

/// The steps of connecting to the stream.
#[derive(Debug, Clone, Copy, PartialEq, Eq, Structural)]
pub enum StreamStep {
    MainLoop,
    Context,
    Connect,
    Create,
    Listen,
    Serialize,
    Format,
    Start,
}

/// What the failure of a step is, with the words of the failure; a format that cannot be made
/// comes without words.
pub open spec fn step_failed(step: StreamStep, e: Seq<char>, r: LinuxCaptureError) -> bool {
    match step {
        StreamStep::MainLoop => r matches LinuxCaptureError::PipeWireUnavailable(t) && t@
            == "MainLoop creation failed: "@ + e,
        StreamStep::Context => r matches LinuxCaptureError::PipeWireUnavailable(t) && t@
            == "Context creation failed: "@ + e,
        StreamStep::Connect => r matches LinuxCaptureError::PipeWireConnectionFailed(t) && t@
            == "connect_fd failed: "@ + e,
        StreamStep::Create => r matches LinuxCaptureError::PipeWireStreamFailed(t) && t@
            == "Stream creation failed: "@ + e,
        StreamStep::Listen => r matches LinuxCaptureError::PipeWireStreamFailed(t) && t@
            == "Listener registration failed: "@ + e,
        StreamStep::Serialize => r matches LinuxCaptureError::PipeWireStreamFailed(t) && t@
            == "Pod serialization failed: "@ + e,
        StreamStep::Format => r matches LinuxCaptureError::PipeWireStreamFailed(t) && t@
            == "Failed to create format pod"@,
        StreamStep::Start => r matches LinuxCaptureError::PipeWireStreamFailed(t) && t@
            == "Stream connect failed: "@ + e,
    }
}

/// The error for a step that failed.
pub fn step_failure(step: StreamStep, e: &str) -> (r: LinuxCaptureError)
    ensures
        step_failed(step, e@, r),
{
    match step {
        StreamStep::MainLoop => LinuxCaptureError::PipeWireUnavailable(
            concat("MainLoop creation failed: ", e),
        ),
        StreamStep::Context => LinuxCaptureError::PipeWireUnavailable(
            concat("Context creation failed: ", e),
        ),
        StreamStep::Connect => LinuxCaptureError::PipeWireConnectionFailed(
            concat("connect_fd failed: ", e),
        ),
        StreamStep::Create => LinuxCaptureError::PipeWireStreamFailed(
            concat("Stream creation failed: ", e),
        ),
        StreamStep::Listen => LinuxCaptureError::PipeWireStreamFailed(
            concat("Listener registration failed: ", e),
        ),
        StreamStep::Serialize => LinuxCaptureError::PipeWireStreamFailed(
            concat("Pod serialization failed: ", e),
        ),
        StreamStep::Format => LinuxCaptureError::PipeWireStreamFailed(
            "Failed to create format pod".to_owned(),
        ),
        StreamStep::Start => LinuxCaptureError::PipeWireStreamFailed(
            concat("Stream connect failed: ", e),
        ),
    }
}

/// Where in a pixel its blue (0), green (1) or red (2) part lies.
pub open spec fn part(format: SpaVideoFormatTag, c: int) -> int {
    match format {
        SpaVideoFormatTag::Bgrx | SpaVideoFormatTag::Bgra | SpaVideoFormatTag::Bgr
        | SpaVideoFormatTag::Other(_) => c,
        SpaVideoFormatTag::Rgbx | SpaVideoFormatTag::Rgba | SpaVideoFormatTag::Rgb => 2 - c,
        SpaVideoFormatTag::Xrgb | SpaVideoFormatTag::Argb => 3 - c,
        SpaVideoFormatTag::Xbgr | SpaVideoFormatTag::Abgr => 1 + c,
    }
}

fn part_of(format: SpaVideoFormatTag, c: usize) -> (r: usize)
    requires
        c <= 2,
    ensures
        r == part(format, c as int),
        r <= 3,
{
    match format {
        SpaVideoFormatTag::Bgrx | SpaVideoFormatTag::Bgra | SpaVideoFormatTag::Bgr
        | SpaVideoFormatTag::Other(_) => c,
        SpaVideoFormatTag::Rgbx | SpaVideoFormatTag::Rgba | SpaVideoFormatTag::Rgb => 2 - c,
        SpaVideoFormatTag::Xrgb | SpaVideoFormatTag::Argb => 3 - c,
        SpaVideoFormatTag::Xbgr | SpaVideoFormatTag::Abgr => 1 + c,
    }
}

/// Where pixel number `p` of a picture starts in a buffer.
pub open spec fn pixel_start(info: StreamInfo, stride: u32, p: int) -> int {
    (p / info.width as int) * stride + (p % info.width as int) * info.format.width()
}

/// A byte of the packed picture: out of the buffer where four bytes from the start of the pixel on
/// lie in it, else what stood there before, or zero.
pub open spec fn packed_byte(
    source: Seq<u8>,
    info: StreamInfo,
    stride: u32,
    before: Seq<u8>,
    k: int,
) -> u8 {
    let start = pixel_start(info, stride, k / 3);
    if start + 3 < source.len() {
        source[start + part(info.format, k % 3)]
    } else if k < before.len() {
        before[k]
    } else {
        0
    }
}

fn start_of(info: &StreamInfo, stride: u32, p: u64) -> (r: u128)
    requires
        info.width > 0,
        p < info.width * info.height,
    ensures
        r == pixel_start(*info, stride, p as int),
        r <= 0x8_0000_0000_0000_0000,
{
    let w: u64 = info.width as u64;
    let y: u64 = p / w;
    let x: u64 = p % w;
    let bpp: u32 = info.format.bytes_per_pixel();
    assert(y <= p && y < 0x1_0000_0000) by (nonlinear_arith)
        requires
            w > 0,
            y == p / w,
            p < info.width * info.height,
            w == info.width,
    ;
    assert(y * stride <= 0x1_0000_0000 * 0x1_0000_0000) by (nonlinear_arith)
        requires
            y < 0x1_0000_0000,
            stride <= 0xffff_ffff,
    ;
    assert(x * bpp <= x * 4) by (nonlinear_arith)
        requires
            bpp <= 4,
    ;
    y as u128 * stride as u128 + x as u128 * bpp as u128
}

/// Reorders the parts of the pixels in a buffer into a packed picture of blue, green and red.
pub fn convert_to_bgr_into(source: &[u8], info: &StreamInfo, stride: u32, bgr: &mut Vec<u8>)
    requires
        info.width * info.height * 3 <= u32::MAX,
    ensures
        final(bgr)@ == Seq::new(
            (info.width * info.height * 3) as nat,
            |k: int| packed_byte(source@, *info, stride, old(bgr)@, k),
        ),
{
    let ghost before = bgr@;
    assert(info.width * info.height <= u32::MAX) by (nonlinear_arith)
        requires
            info.width * info.height * 3 <= u32::MAX,
    ;
    let pixels: u32 = info.width * info.height;
    let needed: usize = (pixels * 3) as usize;
    bgr.resize(needed, 0);
    let len: usize = source.len();
    let mut p: u32 = 0;
    assert forall|k: int| 0 <= k < needed implies bgr@[k] == (if k < before.len() {
        before[k]
    } else {
        0
    }) by {
        if needed > before.len() && k < before.len() {
            assert(bgr@.subrange(0, before.len() as int)[k] == bgr@[k]);
        }
    }
    while p < pixels
        invariant
            p <= pixels,
            pixels == info.width * info.height,
            needed == pixels * 3,
            len == source@.len(),
            bgr@.len() == needed,
            forall|k: int|
                0 <= k < 3 * p ==> bgr@[k] == packed_byte(source@, *info, stride, before, k),
            forall|k: int|
                3 * p <= k < needed ==> bgr@[k] == (if k < before.len() {
                    before[k]
                } else {
                    0
                }),
        decreases pixels - p,
    {
        assert(info.width > 0) by (nonlinear_arith)
            requires
                p < pixels,
                pixels == info.width * info.height,
                p >= 0,
        ;
        let start: u128 = start_of(info, stride, p as u64);
        let ghost at = 3 * p;
        assert(at / 3 == p && (at + 1) / 3 == p && (at + 2) / 3 == p);
        if start + 3 < len as u128 {
            let s: usize = start as usize;
            let d: usize = p as usize * 3;
            bgr[d] = source[s + part_of(info.format, 0)];
            bgr[d + 1] = source[s + part_of(info.format, 1)];
            bgr[d + 2] = source[s + part_of(info.format, 2)];
        }
        assert forall|k: int| 0 <= k < 3 * (p + 1) implies bgr@[k] == packed_byte(
            source@,
            *info,
            stride,
            before,
            k,
        ) by {
            if k >= at {
                assert(k / 3 == p);
                assert(k % 3 == k - at);
            }
        }
        p = p + 1;
    }
    assert(bgr@ =~= Seq::new(
        (info.width * info.height * 3) as nat,
        |k: int| packed_byte(source@, *info, stride, before, k),
    ));
}

/// A packed picture holds, for each pixel, its blue, green and red byte, wherever the format of the
/// stream keeps them: the letters of the format name the parts in the order of the bytes.
pub proof fn law_packed_pixel(
    source: Seq<u8>,
    info: StreamInfo,
    stride: u32,
    before: Seq<u8>,
    x: int,
    y: int,
)
    requires
        0 <= x < info.width,
        0 <= y < info.height,
        info.format !is Other,
        ({
            let size: int = if info.format is Bgr || info.format is Rgb {
                3
            } else {
                4
            };
            y * stride + x * size + 4 <= source.len()
        }),
    ensures
        ({
            let size: int = if info.format is Bgr || info.format is Rgb {
                3
            } else {
                4
            };
            let at = y * stride + x * size;
            let k = 3 * (y * info.width + x);
            let blue = packed_byte(source, info, stride, before, k);
            let green = packed_byte(source, info, stride, before, k + 1);
            let red = packed_byte(source, info, stride, before, k + 2);
            match info.format {
                SpaVideoFormatTag::Bgr | SpaVideoFormatTag::Bgrx | SpaVideoFormatTag::Bgra => blue
                    == source[at] && green == source[at + 1] && red == source[at + 2],
                SpaVideoFormatTag::Rgb | SpaVideoFormatTag::Rgbx | SpaVideoFormatTag::Rgba => red
                    == source[at] && green == source[at + 1] && blue == source[at + 2],
                SpaVideoFormatTag::Xrgb | SpaVideoFormatTag::Argb => red == source[at + 1] && green
                    == source[at + 2] && blue == source[at + 3],
                SpaVideoFormatTag::Xbgr | SpaVideoFormatTag::Abgr => blue == source[at + 1] && green
                    == source[at + 2] && red == source[at + 3],
                SpaVideoFormatTag::Other(_) => true,
            }
        }),
{
    let p = y * info.width + x;
    vstd::arithmetic::div_mod::lemma_fundamental_div_mod_converse(p, info.width as int, y, x);
    let k = 3 * p;
    assert(k / 3 == p && (k + 1) / 3 == p && (k + 2) / 3 == p);
    assert(k % 3 == 0 && (k + 1) % 3 == 1 && (k + 2) % 3 == 2);
}

/// A buffer that is taken holds every pixel of the picture, whose rows lie behind one another
/// where the buffer does not say how far apart they are.
pub proof fn law_taken_holds_pixels(
    info: StreamInfo,
    chunk_size: usize,
    chunk_stride: i32,
    x: int,
    y: int,
)
    requires
        taken(info, chunk_size, chunk_stride),
        chunk_stride > 0 ==> info.width * info.format.width() <= chunk_stride,
        0 <= x < info.width,
        0 <= y < info.height,
    ensures
        ({
            let size: int = if info.format is Bgr || info.format is Rgb {
                3
            } else {
                4
            };
            let stride: int = if chunk_stride > 0 {
                chunk_stride as int
            } else {
                info.width * size
            };
            y * stride + x * size + size <= chunk_size
        }),
{
    let size: int = if info.format is Bgr || info.format is Rgb {
        3
    } else {
        4
    };
    let stride: int = buffer_stride(info, chunk_stride);
    let (w, h) = (info.width as int, info.height as int);
    assert(info.format.width() == size);
    assert(w * size <= stride);
    assert(x * size + size <= w * size) by (nonlinear_arith)
        requires
            x + 1 <= w,
            size > 0,
    ;
    assert(y * stride + stride <= stride * h) by (nonlinear_arith)
        requires
            y + 1 <= h,
            stride >= 0,
    ;
}

/// A buffer is refused only where it is empty, of an unknown format, or shorter than its rows.
pub proof fn law_refused_short(info: StreamInfo, chunk_size: usize, chunk_stride: i32)
    requires
        info.format !is Other,
        chunk_size > 0,
        chunk_stride > 0 ==> chunk_size >= chunk_stride * info.height,
        chunk_stride <= 0 ==> chunk_size >= 4 * (info.width * info.height),
    ensures
        taken(info, chunk_size, chunk_stride),
{
    let (w, h) = (info.width as int, info.height as int);
    let s = info.format.width();
    assert(0 <= w * h) by (nonlinear_arith)
        requires
            w >= 0,
            h >= 0,
    ;
    assert(s == 3 || s == 4);
    assert((w * 3) * h == 3 * (w * h)) by (nonlinear_arith);
    assert((w * 4) * h == 4 * (w * h)) by (nonlinear_arith);
}

/// Where a pixel begins with its colours, those who read the picture find each colour where the
/// stream has put it.
pub proof fn law_colors_in_place(format: SpaVideoFormatTag, c: int)
    requires
        0 <= c < 3,
        format is Bgrx || format is Bgra || format is Bgr || format is Rgbx || format is Rgba
            || format is Rgb,
    ensures
        pixel_format(format).place(2 - c) == (if format is Bgrx || format is Bgra || format is Bgr {
            c
        } else {
            2 - c
        }),
        part(format, c) == pixel_format(format).place(2 - c),
{
}

} // verus!
