//! Newton's cradle, a physics toy with synthesized sound.
//!
//! The cradle is a row of pendulums of equal mass whose pivots are one ball diameter
//! apart, so the balls just touch at rest. Two neighbours that touch and approach
//! exchange their angular velocities, and sweeping that exchange along the row sends
//! as many balls out at one end as came in at the other. Every sound is computed:
//! metallic clacks in a room, and airy sweeps.
//!
//! Numbers are held as the bits of single-precision floating-point numbers, and
//! `float` computes with them as the standard for them asks: every result is the
//! nearest there is. Functions that have no such simple rule, such as the sine, are
//! evaluated by the caller. The library says at which arguments, and takes the results.

// Arithmetic.
pub mod rounding;
pub mod float;
pub mod root;
pub mod exact;
pub mod bounds;
pub mod order;
pub mod near;
pub mod vector;

// The cradle.
pub mod cradle;
pub mod dust;
pub mod sliders;
pub mod scene;
pub mod captions;
pub mod session;

// Its sounds.
pub mod noise;
pub mod click;
pub mod reverb;
pub mod whoosh;
pub mod wav;
pub mod bank;

// Its settings.
pub mod text;
pub mod config;

// What holds of all of them.
pub mod bank_laws;
pub mod contact_laws;
pub mod cradle_laws;
pub mod dust_laws;
pub mod echo_laws;
pub mod energy_laws;
pub mod file_laws;
pub mod frame_laws;
pub mod hand_laws;
pub mod motion_laws;
pub mod room_laws;
pub mod scene_laws;
pub mod screen_laws;
pub mod session_laws;
pub mod settings_laws;
pub mod slider_laws;
pub mod sound_laws;
pub mod state_laws;
pub mod sweep_laws;
pub mod tone_laws;
pub mod word_laws;
