//! Balls bounce in a playfield whose boundary runs along the lines of an integer grid.
//! Rectangular walls are cut into the playfield, and a wall that reaches from one side of
//! a region to another divides it in two. This library holds the boundary model and the
//! engine that cuts the walls, with the balls as far as the cut has to place them: which
//! region holds which ball is decided on whole numbers. How the balls move is left to
//! the program that uses the library.
//!
//! Every function is verified against its contract by Verus, but for two that hand a
//! comparison of points to `nalgebra`: their contracts are taken on trust, and say so.

pub mod game;
