# color_extract

Palettes, leading colours and regions of images.

`src/` is a Verus library: the decisions, the geometry and the bookkeeping of colour
extraction, each function with a contract that Verus proves. `app/` is the program
around it: it reads and writes files, talks to the image, clustering and colour
crates, and does the floating-point arithmetic.

## How numbers pass between the two

The library holds a double-precision number by its bit pattern (`scalar::Scalar`) and
compares such numbers in the IEEE 754 order. Where a computation is arithmetic, the
library takes it as a closure and states its results in terms of what the closure
returned. So the order of steps, the choice of extremes, ties, thresholds, index ranges
and what every pixel ends up as are proved for any arithmetic.

## Modules

| Modules | Subject |
|---|---|
| `scalar`, `order`, `quantile`, `sampling`, `selection` | numbers, stable orders, ranks, draws, winners |
| `region`, `uf`, `classes`, `adjacency`, `anime`, `anime_merge`, `merge`, `segment` | segmentation of flat-coloured images |
| `ccl`, `flood`, `dilate`, `split`, `refine`, `edge` | components, splitting and refinement of regions, edge maps |
| `partition`, `clusters`, `border`, `morphology`, `background`, `separation`, `softmask` | dividing an image by colour, and its background |
| `median_cut`, `octree`, `octree_pixels`, `kmeans`, `algorithms`, `foreground`, `impression`, `spatial` | palettes and leading colours |
| `fusion`, `weights`, `residual`, `blocks`, `segfeat`, `pipeline` | feature maps and their fusion |
| `canvas`, `sheet`, `thumbs`, `overlays`, `encoding` | pictures, contact sheets, data URIs |
| `text`, `names`, `page_palette`, `page_clusters`, `page_segments`, `groups` | texts and pages |
| `params`, `dims`, `timing` | settings, sizes, durations |

## What is trusted

Calls into `image`, `base64`, `font8x8`, `rand` and the clock stand behind small
functions whose contracts are believed; each says in its comment what it claims.

## The program

    color_extract <command> [arguments]

The commands are `extract`, `dct-extract`, `color-segment`, `feature-fuse`,
`impression-color-extract`, `img-compare`, `dct-viz`, `lab-gradient`,
`global-residual`, `residual-viz` and `spectral-residual`. They read the images in
`imgs/` and write to `output/`.
