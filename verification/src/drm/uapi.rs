//! The DRM ABI facts the display logic depends on: the sizes of the kernel's request
//! structures and the request numbers built from them.

use vstd::prelude::*;

use crate::ioctl::{
    Platform,
    request, request_number, DIRECTION_NONE, DIRECTION_READ_WRITE, DIRECTION_WRITE,
};

verus! {

/// The kind byte of DRM requests, `'d'`.
pub const DRM_KIND: u8 = 0x64;

/// The capability saying a driver allocates dumb buffers.
pub const CAP_DUMB_BUFFER: u64 = 0x1;
/// The client capability that enables atomic modesetting.
pub const CLIENT_CAP_ATOMIC: u64 = 3;
/// A connector's connection state when something is plugged in.
pub const MODE_CONNECTED: u32 = 1;
/// Asks for a completion event when a flip lands.
pub const MODE_PAGE_FLIP_EVENT: u32 = 0x01;
/// Checks an atomic commit without applying it.
pub const MODE_ATOMIC_TEST_ONLY: u32 = 0x0100;
/// Returns from an atomic commit before it lands.
pub const MODE_ATOMIC_NONBLOCK: u32 = 0x0200;
/// Lets an atomic commit change the mode.
pub const MODE_ATOMIC_ALLOW_MODESET: u32 = 0x0400;
/// The object type of a CRTC.
pub const MODE_OBJECT_CRTC: u32 = 0xcccc_cccc;
/// The object type of a connector.
pub const MODE_OBJECT_CONNECTOR: u32 = 0xc0c0_c0c0;
/// The object type of a plane.
pub const MODE_OBJECT_PLANE: u32 = 0xeeee_eeee;

/// Bytes in the kernel's `drm_mode_modeinfo`.
pub const MODE_INFO_BYTES: u32 = 68;
/// Bytes in the kernel's `drm_get_cap`.
pub const GET_CAP_BYTES: u32 = 16;
/// Bytes in the kernel's `drm_set_client_cap`.
pub const SET_CLIENT_CAP_BYTES: u32 = 16;
/// Bytes in the kernel's `drm_mode_card_res`.
pub const CARD_RESOURCES_BYTES: u32 = 64;
/// Bytes in the kernel's `drm_mode_crtc`.
pub const MODE_CRTC_BYTES: u32 = 104;
/// Bytes in the kernel's `drm_mode_get_encoder`.
pub const GET_ENCODER_BYTES: u32 = 20;
/// Bytes in the kernel's `drm_mode_get_connector`.
pub const GET_CONNECTOR_BYTES: u32 = 80;
/// Bytes in the kernel's `drm_mode_get_property`.
pub const GET_PROPERTY_BYTES: u32 = 64;
/// Bytes in a framebuffer id.
pub const FRAMEBUFFER_ID_BYTES: u32 = 4;
/// Bytes in the kernel's `drm_mode_create_dumb`.
pub const CREATE_DUMB_BYTES: u32 = 32;
/// Bytes in the kernel's `drm_mode_map_dumb`.
pub const MAP_DUMB_BYTES: u32 = 16;
/// Bytes in the kernel's `drm_mode_destroy_dumb`.
pub const DESTROY_DUMB_BYTES: u32 = 4;
/// Bytes in the kernel's `drm_mode_fb_cmd2`.
pub const FRAMEBUFFER_BYTES: u32 = 104;
/// Bytes in the kernel's `drm_mode_crtc_page_flip`.
pub const PAGE_FLIP_BYTES: u32 = 24;
/// Bytes in the kernel's `drm_mode_get_plane_res`.
pub const PLANE_RESOURCES_BYTES: u32 = 16;
/// Bytes in the kernel's `drm_mode_get_plane`.
pub const GET_PLANE_BYTES: u32 = 32;
/// Bytes in the kernel's `drm_mode_obj_get_properties`.
pub const OBJECT_PROPERTIES_BYTES: u32 = 32;
/// Bytes in the kernel's `drm_mode_atomic`.
pub const ATOMIC_COMMIT_BYTES: u32 = 56;
/// Bytes in the kernel's `drm_mode_create_blob`.
pub const CREATE_BLOB_BYTES: u32 = 16;
/// Bytes in the kernel's `drm_mode_destroy_blob`.
pub const DESTROY_BLOB_BYTES: u32 = 4;

/// The request that reads a device capability.
pub fn get_cap_request(platform: Platform) -> (code: u32)
    ensures
        code == request_number(platform, DIRECTION_READ_WRITE, DRM_KIND, 0xc, GET_CAP_BYTES),
{
    request(platform, DIRECTION_READ_WRITE, DRM_KIND, 0xc, GET_CAP_BYTES)
}

/// The request that sets a client capability.
pub fn set_client_cap_request(platform: Platform) -> (code: u32)
    ensures
        code == request_number(platform, DIRECTION_WRITE, DRM_KIND, 0xd, SET_CLIENT_CAP_BYTES),
{
    request(platform, DIRECTION_WRITE, DRM_KIND, 0xd, SET_CLIENT_CAP_BYTES)
}

/// The request that makes the caller the display's master.
pub fn set_master_request(platform: Platform) -> (code: u32)
    ensures
        code == request_number(platform, DIRECTION_NONE, DRM_KIND, 0x1e, 0),
{
    request(platform, DIRECTION_NONE, DRM_KIND, 0x1e, 0)
}

/// The request that gives up mastership of the display.
pub fn drop_master_request(platform: Platform) -> (code: u32)
    ensures
        code == request_number(platform, DIRECTION_NONE, DRM_KIND, 0x1f, 0),
{
    request(platform, DIRECTION_NONE, DRM_KIND, 0x1f, 0)
}

/// The request that enumerates a card's CRTCs, connectors and encoders.
pub fn mode_get_resources_request(platform: Platform) -> (code: u32)
    ensures
        code == request_number(platform, DIRECTION_READ_WRITE, DRM_KIND, 0xa0, CARD_RESOURCES_BYTES),
{
    request(platform, DIRECTION_READ_WRITE, DRM_KIND, 0xa0, CARD_RESOURCES_BYTES)
}

/// The request that sets a CRTC's mode and framebuffer.
pub fn mode_set_crtc_request(platform: Platform) -> (code: u32)
    ensures
        code == request_number(platform, DIRECTION_READ_WRITE, DRM_KIND, 0xa2, MODE_CRTC_BYTES),
{
    request(platform, DIRECTION_READ_WRITE, DRM_KIND, 0xa2, MODE_CRTC_BYTES)
}

/// The request that reads an encoder.
pub fn mode_get_encoder_request(platform: Platform) -> (code: u32)
    ensures
        code == request_number(platform, DIRECTION_READ_WRITE, DRM_KIND, 0xa6, GET_ENCODER_BYTES),
{
    request(platform, DIRECTION_READ_WRITE, DRM_KIND, 0xa6, GET_ENCODER_BYTES)
}

/// The request that reads a connector.
pub fn mode_get_connector_request(platform: Platform) -> (code: u32)
    ensures
        code == request_number(platform, DIRECTION_READ_WRITE, DRM_KIND, 0xa7, GET_CONNECTOR_BYTES),
{
    request(platform, DIRECTION_READ_WRITE, DRM_KIND, 0xa7, GET_CONNECTOR_BYTES)
}

/// The request that reads a property's name.
pub fn mode_get_property_request(platform: Platform) -> (code: u32)
    ensures
        code == request_number(platform, DIRECTION_READ_WRITE, DRM_KIND, 0xaa, GET_PROPERTY_BYTES),
{
    request(platform, DIRECTION_READ_WRITE, DRM_KIND, 0xaa, GET_PROPERTY_BYTES)
}

/// The request that removes a framebuffer.
pub fn mode_remove_framebuffer_request(platform: Platform) -> (code: u32)
    ensures
        code == request_number(platform, DIRECTION_READ_WRITE, DRM_KIND, 0xaf, FRAMEBUFFER_ID_BYTES),
{
    request(platform, DIRECTION_READ_WRITE, DRM_KIND, 0xaf, FRAMEBUFFER_ID_BYTES)
}

/// The request that allocates a dumb buffer.
pub fn mode_create_dumb_request(platform: Platform) -> (code: u32)
    ensures
        code == request_number(platform, DIRECTION_READ_WRITE, DRM_KIND, 0xb2, CREATE_DUMB_BYTES),
{
    request(platform, DIRECTION_READ_WRITE, DRM_KIND, 0xb2, CREATE_DUMB_BYTES)
}

/// The request that reads the offset a dumb buffer is mapped at.
pub fn mode_map_dumb_request(platform: Platform) -> (code: u32)
    ensures
        code == request_number(platform, DIRECTION_READ_WRITE, DRM_KIND, 0xb3, MAP_DUMB_BYTES),
{
    request(platform, DIRECTION_READ_WRITE, DRM_KIND, 0xb3, MAP_DUMB_BYTES)
}

/// The request that releases a dumb buffer.
pub fn mode_destroy_dumb_request(platform: Platform) -> (code: u32)
    ensures
        code == request_number(platform, DIRECTION_READ_WRITE, DRM_KIND, 0xb4, DESTROY_DUMB_BYTES),
{
    request(platform, DIRECTION_READ_WRITE, DRM_KIND, 0xb4, DESTROY_DUMB_BYTES)
}

/// The request that registers a framebuffer.
pub fn mode_add_framebuffer2_request(platform: Platform) -> (code: u32)
    ensures
        code == request_number(platform, DIRECTION_READ_WRITE, DRM_KIND, 0xb8, FRAMEBUFFER_BYTES),
{
    request(platform, DIRECTION_READ_WRITE, DRM_KIND, 0xb8, FRAMEBUFFER_BYTES)
}

/// The request that queues a legacy page flip.
pub fn mode_page_flip_request(platform: Platform) -> (code: u32)
    ensures
        code == request_number(platform, DIRECTION_READ_WRITE, DRM_KIND, 0xb0, PAGE_FLIP_BYTES),
{
    request(platform, DIRECTION_READ_WRITE, DRM_KIND, 0xb0, PAGE_FLIP_BYTES)
}

/// The request that enumerates a card's planes.
pub fn mode_get_plane_resources_request(platform: Platform) -> (code: u32)
    ensures
        code == request_number(platform, DIRECTION_READ_WRITE, DRM_KIND, 0xb5, PLANE_RESOURCES_BYTES),
{
    request(platform, DIRECTION_READ_WRITE, DRM_KIND, 0xb5, PLANE_RESOURCES_BYTES)
}

/// The request that reads a plane.
pub fn mode_get_plane_request(platform: Platform) -> (code: u32)
    ensures
        code == request_number(platform, DIRECTION_READ_WRITE, DRM_KIND, 0xb6, GET_PLANE_BYTES),
{
    request(platform, DIRECTION_READ_WRITE, DRM_KIND, 0xb6, GET_PLANE_BYTES)
}

/// The request that reads an object's properties.
pub fn mode_object_get_properties_request(platform: Platform) -> (code: u32)
    ensures
        code == request_number(platform, DIRECTION_READ_WRITE, DRM_KIND, 0xb9, OBJECT_PROPERTIES_BYTES),
{
    request(platform, DIRECTION_READ_WRITE, DRM_KIND, 0xb9, OBJECT_PROPERTIES_BYTES)
}

/// The request that submits an atomic commit.
pub fn mode_atomic_request(platform: Platform) -> (code: u32)
    ensures
        code == request_number(platform, DIRECTION_READ_WRITE, DRM_KIND, 0xbc, ATOMIC_COMMIT_BYTES),
{
    request(platform, DIRECTION_READ_WRITE, DRM_KIND, 0xbc, ATOMIC_COMMIT_BYTES)
}

/// The request that creates a property blob.
pub fn mode_create_property_blob_request(platform: Platform) -> (code: u32)
    ensures
        code == request_number(platform, DIRECTION_READ_WRITE, DRM_KIND, 0xbd, CREATE_BLOB_BYTES),
{
    request(platform, DIRECTION_READ_WRITE, DRM_KIND, 0xbd, CREATE_BLOB_BYTES)
}

/// The request that destroys a property blob.
pub fn mode_destroy_property_blob_request(platform: Platform) -> (code: u32)
    ensures
        code == request_number(platform, DIRECTION_READ_WRITE, DRM_KIND, 0xbe, DESTROY_BLOB_BYTES),
{
    request(platform, DIRECTION_READ_WRITE, DRM_KIND, 0xbe, DESTROY_BLOB_BYTES)
}

} // verus!
