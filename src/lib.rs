// The integer core of a ray tracer: the pixel grid, the closest-hit choice
// among the objects a ray meets, and the column scheduling of a render.

pub mod bitmap;
pub mod hit;
pub mod object;
pub mod render;
