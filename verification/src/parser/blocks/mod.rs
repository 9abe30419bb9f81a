//! Readers for the blocks of a TRX source.

pub mod diagram;
pub mod packet;
pub mod sqltable;
pub mod state;
pub mod xy;
