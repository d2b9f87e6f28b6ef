pub mod stardist_2d_versatile_fluo;
