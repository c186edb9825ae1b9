pub mod raycast;
